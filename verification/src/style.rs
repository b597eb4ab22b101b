//! The style table and the style compiler.
//!
//! The table is a fixed, case-sensitive mapping from style names to terminal
//! styling sequences. The compiler turns a whitespace-separated style
//! expression into the concatenation of the sequences of its recognised
//! tokens; unknown tokens are silently skipped.

use crate::ansi::{
    code_invisible, lemma_code_invisible, lemma_esc_after_empty, lemma_invisible_concat, ESC,
    SGR_END,
};
use vstd::prelude::*;
use vstd::slice::slice_subrange;

verus! {

/// Left bracket byte of a terminal control sequence (`[`).
pub const SGR_OPEN: u8 = 0x5b;

/// A two-digit styling sequence `ESC [ d1 d2 m`.
pub open spec fn sgr2(d1: u8, d2: u8) -> Seq<u8> {
    seq![ESC, SGR_OPEN, d1, d2, SGR_END]
}

/// A one-digit styling sequence `ESC [ d m`.
pub open spec fn sgr1(d: u8) -> Seq<u8> {
    seq![ESC, SGR_OPEN, d, SGR_END]
}

/// The reset sequence `ESC [ 0 m`, appended after every styled span.
pub open spec fn reset_code_spec() -> Seq<u8> {
    sgr1(0x30)
}

fn make_sgr2(d1: u8, d2: u8) -> (r: Vec<u8>)
    ensures
        r@ == sgr2(d1, d2),
{
    let mut v: Vec<u8> = Vec::new();
    v.push(ESC);
    v.push(SGR_OPEN);
    v.push(d1);
    v.push(d2);
    v.push(SGR_END);
    proof {
        assert(v@ =~= sgr2(d1, d2));
    }
    v
}

fn make_sgr1(d: u8) -> (r: Vec<u8>)
    ensures
        r@ == sgr1(d),
{
    let mut v: Vec<u8> = Vec::new();
    v.push(ESC);
    v.push(SGR_OPEN);
    v.push(d);
    v.push(SGR_END);
    proof {
        assert(v@ =~= sgr1(d));
    }
    v
}

/// Executable form of the reset sequence.
pub fn reset_code() -> (r: Vec<u8>)
    ensures
        r@ == reset_code_spec(),
{
    make_sgr1(0x30)
}

pub proof fn lemma_sgr2_invisible(d1: u8, d2: u8)
    requires
        d1 != SGR_END,
        d2 != SGR_END,
    ensures
        code_invisible(sgr2(d1, d2)),
{
    lemma_code_invisible(sgr2(d1, d2));
}

pub proof fn lemma_sgr1_invisible(d: u8)
    requires
        d != SGR_END,
    ensures
        code_invisible(sgr1(d)),
{
    lemma_code_invisible(sgr1(d));
}

pub proof fn lemma_empty_invisible()
    ensures
        code_invisible(Seq::<u8>::empty()),
{
    lemma_esc_after_empty(false);
}

/// The style table: the styling sequence of a style name, written with the
/// names' bytes (`black`, `red`, `green`, `yellow`, `blue`, `magenta`, `cyan`,
/// `white`, `bold`, `underline`, `blink`, `reverse`, `concealed`, `default`).
pub open spec fn lookup_spec(name: Seq<u8>) -> Option<Seq<u8>> {
    if name == seq![0x62u8, 0x6c, 0x61, 0x63, 0x6b] {
        Some(sgr2(0x33, 0x30))
    } else if name == seq![0x72u8, 0x65, 0x64] {
        Some(sgr2(0x33, 0x31))
    } else if name == seq![0x67u8, 0x72, 0x65, 0x65, 0x6e] {
        Some(sgr2(0x33, 0x32))
    } else if name == seq![0x79u8, 0x65, 0x6c, 0x6c, 0x6f, 0x77] {
        Some(sgr2(0x33, 0x33))
    } else if name == seq![0x62u8, 0x6c, 0x75, 0x65] {
        Some(sgr2(0x33, 0x34))
    } else if name == seq![0x6du8, 0x61, 0x67, 0x65, 0x6e, 0x74, 0x61] {
        Some(sgr2(0x33, 0x35))
    } else if name == seq![0x63u8, 0x79, 0x61, 0x6e] {
        Some(sgr2(0x33, 0x36))
    } else if name == seq![0x77u8, 0x68, 0x69, 0x74, 0x65] {
        Some(sgr2(0x33, 0x37))
    } else if name == seq![0x62u8, 0x6f, 0x6c, 0x64] {
        Some(sgr1(0x31))
    } else if name == seq![0x75u8, 0x6e, 0x64, 0x65, 0x72, 0x6c, 0x69, 0x6e, 0x65] {
        Some(sgr1(0x34))
    } else if name == seq![0x62u8, 0x6c, 0x69, 0x6e, 0x6b] {
        Some(sgr1(0x35))
    } else if name == seq![0x72u8, 0x65, 0x76, 0x65, 0x72, 0x73, 0x65] {
        Some(sgr1(0x37))
    } else if name == seq![0x63u8, 0x6f, 0x6e, 0x63, 0x65, 0x61, 0x6c, 0x65, 0x64] {
        Some(sgr1(0x38))
    } else if name == seq![0x64u8, 0x65, 0x66, 0x61, 0x75, 0x6c, 0x74] {
        Some(sgr1(0x30))
    } else {
        None
    }
}

/// Byte-wise equality of two slices.
pub fn bytes_eq(a: &[u8], b: &[u8]) -> (r: bool)
    ensures
        r == (a@ == b@),
{
    if a.len() != b.len() {
        proof {
            if a@ == b@ {
                assert(a@.len() == b@.len());
            }
        }
        return false;
    }
    let mut i: usize = 0;
    while i < a.len()
        invariant
            0 <= i <= a@.len(),
            a@.len() == b@.len(),
            forall|k: int| 0 <= k < i ==> a@[k] == b@[k],
        decreases a@.len() - i,
    {
        if a[i] != b[i] {
            return false;
        }
        i = i + 1;
    }
    proof {
        assert(a@ =~= b@);
    }
    true
}

/// Looks a style name up in the style table.
pub fn lookup_style(name: &[u8]) -> (r: Option<Vec<u8>>)
    ensures
        r matches Some(c) ==> lookup_spec(name@) == Some(c@),
        r is None ==> lookup_spec(name@) is None,
{
    let n_black: [u8; 5] = [0x62, 0x6c, 0x61, 0x63, 0x6b];
    let n_red: [u8; 3] = [0x72, 0x65, 0x64];
    let n_green: [u8; 5] = [0x67, 0x72, 0x65, 0x65, 0x6e];
    let n_yellow: [u8; 6] = [0x79, 0x65, 0x6c, 0x6c, 0x6f, 0x77];
    let n_blue: [u8; 4] = [0x62, 0x6c, 0x75, 0x65];
    let n_magenta: [u8; 7] = [0x6d, 0x61, 0x67, 0x65, 0x6e, 0x74, 0x61];
    let n_cyan: [u8; 4] = [0x63, 0x79, 0x61, 0x6e];
    let n_white: [u8; 5] = [0x77, 0x68, 0x69, 0x74, 0x65];
    let n_bold: [u8; 4] = [0x62, 0x6f, 0x6c, 0x64];
    let n_underline: [u8; 9] = [0x75, 0x6e, 0x64, 0x65, 0x72, 0x6c, 0x69, 0x6e, 0x65];
    let n_blink: [u8; 5] = [0x62, 0x6c, 0x69, 0x6e, 0x6b];
    let n_reverse: [u8; 7] = [0x72, 0x65, 0x76, 0x65, 0x72, 0x73, 0x65];
    let n_concealed: [u8; 9] = [0x63, 0x6f, 0x6e, 0x63, 0x65, 0x61, 0x6c, 0x65, 0x64];
    let n_default: [u8; 7] = [0x64, 0x65, 0x66, 0x61, 0x75, 0x6c, 0x74];
    proof {
        assert(n_black@ =~= seq![0x62u8, 0x6c, 0x61, 0x63, 0x6b]);
        assert(n_red@ =~= seq![0x72u8, 0x65, 0x64]);
        assert(n_green@ =~= seq![0x67u8, 0x72, 0x65, 0x65, 0x6e]);
        assert(n_yellow@ =~= seq![0x79u8, 0x65, 0x6c, 0x6c, 0x6f, 0x77]);
        assert(n_blue@ =~= seq![0x62u8, 0x6c, 0x75, 0x65]);
        assert(n_magenta@ =~= seq![0x6du8, 0x61, 0x67, 0x65, 0x6e, 0x74, 0x61]);
        assert(n_cyan@ =~= seq![0x63u8, 0x79, 0x61, 0x6e]);
        assert(n_white@ =~= seq![0x77u8, 0x68, 0x69, 0x74, 0x65]);
        assert(n_bold@ =~= seq![0x62u8, 0x6f, 0x6c, 0x64]);
        assert(n_underline@ =~= seq![0x75u8, 0x6e, 0x64, 0x65, 0x72, 0x6c, 0x69, 0x6e, 0x65]);
        assert(n_blink@ =~= seq![0x62u8, 0x6c, 0x69, 0x6e, 0x6b]);
        assert(n_reverse@ =~= seq![0x72u8, 0x65, 0x76, 0x65, 0x72, 0x73, 0x65]);
        assert(n_concealed@ =~= seq![0x63u8, 0x6f, 0x6e, 0x63, 0x65, 0x61, 0x6c, 0x65, 0x64]);
        assert(n_default@ =~= seq![0x64u8, 0x65, 0x66, 0x61, 0x75, 0x6c, 0x74]);
    }
    if bytes_eq(name, n_black.as_slice()) {
        Some(make_sgr2(0x33, 0x30))
    } else if bytes_eq(name, n_red.as_slice()) {
        Some(make_sgr2(0x33, 0x31))
    } else if bytes_eq(name, n_green.as_slice()) {
        Some(make_sgr2(0x33, 0x32))
    } else if bytes_eq(name, n_yellow.as_slice()) {
        Some(make_sgr2(0x33, 0x33))
    } else if bytes_eq(name, n_blue.as_slice()) {
        Some(make_sgr2(0x33, 0x34))
    } else if bytes_eq(name, n_magenta.as_slice()) {
        Some(make_sgr2(0x33, 0x35))
    } else if bytes_eq(name, n_cyan.as_slice()) {
        Some(make_sgr2(0x33, 0x36))
    } else if bytes_eq(name, n_white.as_slice()) {
        Some(make_sgr2(0x33, 0x37))
    } else if bytes_eq(name, n_bold.as_slice()) {
        Some(make_sgr1(0x31))
    } else if bytes_eq(name, n_underline.as_slice()) {
        Some(make_sgr1(0x34))
    } else if bytes_eq(name, n_blink.as_slice()) {
        Some(make_sgr1(0x35))
    } else if bytes_eq(name, n_reverse.as_slice()) {
        Some(make_sgr1(0x37))
    } else if bytes_eq(name, n_concealed.as_slice()) {
        Some(make_sgr1(0x38))
    } else if bytes_eq(name, n_default.as_slice()) {
        Some(make_sgr1(0x30))
    } else {
        None
    }
}

/// Bytes of the one-byte whitespace characters.
pub open spec fn is_ascii_space(b: u8) -> bool {
    b == 0x20 || b == 0x09 || b == 0x0a || b == 0x0b || b == 0x0c || b == 0x0d
}

/// Byte length of the whitespace character that starts at `i`, 0 when none
/// starts there. The characters are the Unicode whitespace characters in
/// their UTF-8 encodings: tab through carriage return and space; next line
/// and no-break space; ogham space mark; en quad through hair space; line and
/// paragraph separator; narrow no-break space; medium mathematical space;
/// ideographic space.
pub open spec fn space_len(e: Seq<u8>, i: int) -> int {
    if i < 0 || i >= e.len() {
        0
    } else if is_ascii_space(e[i]) {
        1
    } else if i + 2 <= e.len() && e[i] == 0xc2 && (e[i + 1] == 0x85 || e[i + 1] == 0xa0) {
        2
    } else if i + 3 <= e.len() && e[i] == 0xe1 && e[i + 1] == 0x9a && e[i + 2] == 0x80 {
        3
    } else if i + 3 <= e.len() && e[i] == 0xe2 && e[i + 1] == 0x80 && ((0x80 <= e[i + 2]
        && e[i + 2] <= 0x8a) || e[i + 2] == 0xa8 || e[i + 2] == 0xa9 || e[i + 2] == 0xaf) {
        3
    } else if i + 3 <= e.len() && e[i] == 0xe2 && e[i + 1] == 0x81 && e[i + 2] == 0x9f {
        3
    } else if i + 3 <= e.len() && e[i] == 0xe3 && e[i + 1] == 0x80 && e[i + 2] == 0x80 {
        3
    } else {
        0
    }
}

/// A whitespace character fits between its start and the end of `e`.
pub proof fn lemma_space_len_bounds(e: Seq<u8>, i: int)
    ensures
        0 <= space_len(e, i) <= 3,
        space_len(e, i) > 0 ==> 0 <= i && i + space_len(e, i) <= e.len(),
{
}

/// What starts at `i + k` of `e` starts at `k` of `e.skip(i)`.
pub proof fn lemma_space_len_shift(e: Seq<u8>, i: int, k: int)
    requires
        0 <= i <= e.len(),
        0 <= k,
    ensures
        space_len(e.skip(i), k) == space_len(e, i + k),
{
    let t = e.skip(i);
    assert(t.len() == e.len() - i);
    if k < t.len() {
        assert(t[k] == e[i + k]);
        if k + 1 < t.len() {
            assert(t[k + 1] == e[i + k + 1]);
        }
        if k + 2 < t.len() {
            assert(t[k + 2] == e[i + k + 2]);
        }
    }
}

/// Length of the leading run of bytes where no whitespace character starts.
pub open spec fn token_end(e: Seq<u8>) -> int
    decreases e.len(),
{
    if e.len() == 0 || space_len(e, 0) > 0 {
        0
    } else {
        1 + token_end(e.skip(1))
    }
}

pub proof fn lemma_token_end_bounds(e: Seq<u8>)
    ensures
        0 <= token_end(e) <= e.len(),
        forall|k: int| 0 <= k < token_end(e) ==> space_len(e, k) == 0,
        token_end(e) < e.len() ==> space_len(e, token_end(e)) > 0,
    decreases e.len(),
{
    lemma_space_len_bounds(e, 0);
    if e.len() == 0 || space_len(e, 0) > 0 {
    } else {
        lemma_token_end_bounds(e.skip(1));
        assert forall|k: int| 0 <= k < token_end(e) implies space_len(e, k) == 0 by {
            if k >= 1 {
                lemma_space_len_shift(e, 1, k - 1);
                assert(space_len(e.skip(1), k - 1) == 0);
            }
        }
        if token_end(e) < e.len() {
            lemma_space_len_shift(e, 1, token_end(e) - 1);
        }
    }
}

/// `token_end` is the only split point with no whitespace start before it and
/// a whitespace start (or the end) at it.
pub proof fn lemma_token_end_is(e: Seq<u8>, k: int)
    requires
        0 <= k <= e.len(),
        forall|m: int| 0 <= m < k ==> space_len(e, m) == 0,
        k < e.len() ==> space_len(e, k) > 0,
    ensures
        token_end(e) == k,
    decreases e.len(),
{
    if e.len() == 0 || space_len(e, 0) > 0 {
    } else {
        assert forall|m: int| 0 <= m < k - 1 implies space_len(e.skip(1), m) == 0 by {
            lemma_space_len_shift(e, 1, m);
            assert(space_len(e, m + 1) == 0);
        }
        if k - 1 < e.skip(1).len() {
            lemma_space_len_shift(e, 1, k - 1);
        }
        lemma_token_end_is(e.skip(1), k - 1);
    }
}

fn space_len_at(e: &[u8], i: usize) -> (r: usize)
    ensures
        r == space_len(e@, i as int),
{
    if i >= e.len() {
        return 0;
    }
    let b0 = e[i];
    if b0 == 0x20 || b0 == 0x09 || b0 == 0x0a || b0 == 0x0b || b0 == 0x0c || b0 == 0x0d {
        return 1;
    }
    let rem = e.len() - i;
    if rem >= 2 && b0 == 0xc2 {
        let b1 = e[i + 1];
        if b1 == 0x85 || b1 == 0xa0 {
            return 2;
        }
    }
    if rem >= 3 {
        let b1 = e[i + 1];
        let b2 = e[i + 2];
        if b0 == 0xe1 && b1 == 0x9a && b2 == 0x80 {
            return 3;
        }
        if b0 == 0xe2 && b1 == 0x80 && ((0x80 <= b2 && b2 <= 0x8a) || b2 == 0xa8 || b2 == 0xa9
            || b2 == 0xaf) {
            return 3;
        }
        if b0 == 0xe2 && b1 == 0x81 && b2 == 0x9f {
            return 3;
        }
        if b0 == 0xe3 && b1 == 0x80 && b2 == 0x80 {
            return 3;
        }
    }
    0
}

/// The sequence a token contributes: its table entry, or nothing if the table
/// does not know the token.
pub open spec fn token_code(t: Seq<u8>) -> Seq<u8> {
    match lookup_spec(t) {
        Some(c) => c,
        None => Seq::empty(),
    }
}

pub proof fn lemma_token_invisible(t: Seq<u8>)
    ensures
        code_invisible(token_code(t)),
{
    lemma_empty_invisible();
    lemma_sgr2_invisible(0x33, 0x30);
    lemma_sgr2_invisible(0x33, 0x31);
    lemma_sgr2_invisible(0x33, 0x32);
    lemma_sgr2_invisible(0x33, 0x33);
    lemma_sgr2_invisible(0x33, 0x34);
    lemma_sgr2_invisible(0x33, 0x35);
    lemma_sgr2_invisible(0x33, 0x36);
    lemma_sgr2_invisible(0x33, 0x37);
    lemma_sgr1_invisible(0x31);
    lemma_sgr1_invisible(0x34);
    lemma_sgr1_invisible(0x35);
    lemma_sgr1_invisible(0x37);
    lemma_sgr1_invisible(0x38);
    lemma_sgr1_invisible(0x30);
}

/// The compiled form of a style expression: the concatenation, in token
/// order, of the table entries of its recognised tokens.
pub open spec fn compile_spec(e: Seq<u8>) -> Seq<u8>
    decreases e.len(),
    via compile_spec_decreases
{
    if e.len() == 0 {
        Seq::empty()
    } else if space_len(e, 0) > 0 {
        compile_spec(e.skip(space_len(e, 0)))
    } else {
        token_code(e.take(token_end(e))) + compile_spec(e.skip(token_end(e)))
    }
}

#[via_fn]
proof fn compile_spec_decreases(e: Seq<u8>) {
    lemma_space_len_bounds(e, 0);
    lemma_token_end_bounds(e);
}

/// A compiled style expression is invisible: stripping removes it whole.
pub proof fn lemma_compile_invisible(e: Seq<u8>)
    ensures
        code_invisible(compile_spec(e)),
    decreases e.len(),
{
    lemma_empty_invisible();
    if e.len() == 0 {
    } else if space_len(e, 0) > 0 {
        lemma_space_len_bounds(e, 0);
        lemma_compile_invisible(e.skip(space_len(e, 0)));
    } else {
        lemma_token_end_bounds(e);
        lemma_token_invisible(e.take(token_end(e)));
        lemma_compile_invisible(e.skip(token_end(e)));
        lemma_invisible_concat(
            token_code(e.take(token_end(e))),
            compile_spec(e.skip(token_end(e))),
        );
    }
}

/// Appends all of `s` to `out`.
pub fn append_bytes(out: &mut Vec<u8>, s: &[u8])
    ensures
        final(out)@ == old(out)@ + s@,
{
    let mut i: usize = 0;
    while i < s.len()
        invariant
            0 <= i <= s@.len(),
            out@ == old(out)@ + s@.take(i as int),
        decreases s@.len() - i,
    {
        out.push(s[i]);
        proof {
            assert(old(out)@ + s@.take(i as int + 1) =~= (old(out)@ + s@.take(i as int)).push(
                s@[i as int],
            ));
        }
        i = i + 1;
    }
    proof {
        assert(s@.take(i as int) =~= s@);
    }
}

/// Compiles a whitespace-separated style expression: splits it into tokens,
/// resolves each against the style table, skips unknown tokens, and
/// concatenates the resolved sequences in token order.
pub fn compile_style(expr: &[u8]) -> (r: Vec<u8>)
    ensures
        r@ == compile_spec(expr@),
{
    let mut out: Vec<u8> = Vec::new();
    let mut i: usize = 0;
    proof {
        assert(expr@.skip(0) =~= expr@);
        assert(out@ + compile_spec(expr@) =~= compile_spec(expr@));
    }
    while i < expr.len()
        invariant
            0 <= i <= expr@.len(),
            compile_spec(expr@) == out@ + compile_spec(expr@.skip(i as int)),
        decreases expr@.len() - i,
    {
        let sl = space_len_at(expr, i);
        if sl > 0 {
            proof {
                lemma_space_len_shift(expr@, i as int, 0);
                lemma_space_len_bounds(expr@, i as int);
                assert(expr@.skip(i as int).skip(sl as int) =~= expr@.skip(i as int + sl as int));
            }
            i = i + sl;
        } else {
            let start = i;
            let mut j = i + 1;
            while j < expr.len() && space_len_at(expr, j) == 0
                invariant
                    (start as int) < (j as int) <= expr@.len(),
                    start < expr@.len(),
                    forall|k: int| start <= k < j ==> space_len(expr@, k) == 0,
                decreases expr@.len() - j,
            {
                j = j + 1;
            }
            let ghost rest = expr@.skip(start as int);
            proof {
                assert forall|m: int| 0 <= m < (j - start) implies space_len(rest, m) == 0 by {
                    lemma_space_len_shift(expr@, start as int, m);
                    assert(space_len(expr@, start + m) == 0);
                }
                if (j as int) - (start as int) < rest.len() {
                    lemma_space_len_shift(expr@, start as int, (j - start) as int);
                    assert(space_len(expr@, j as int) > 0);
                }
                lemma_token_end_is(rest, (j - start) as int);
                assert(rest.take((j - start) as int) =~= expr@.subrange(start as int, j as int));
                assert(rest.skip((j - start) as int) =~= expr@.skip(j as int));
            }
            let token = slice_subrange(expr, start, j);
            let code = lookup_style(token);
            let ghost out_before = out@;
            match code {
                Some(c) => {
                    append_bytes(&mut out, c.as_slice());
                },
                None => {},
            }
            proof {
                assert(out@ =~= out_before + token_code(token@));
                assert(out_before + (token_code(token@) + compile_spec(expr@.skip(j as int)))
                    =~= out@ + compile_spec(expr@.skip(j as int)));
            }
            i = j;
        }
    }
    proof {
        assert(expr@.skip(i as int) =~= Seq::<u8>::empty());
        assert(out@ + compile_spec(Seq::<u8>::empty()) =~= out@);
    }
    out
}

} // verus!
