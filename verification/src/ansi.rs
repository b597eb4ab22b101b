//! A byte-level model of terminal styling sequences.
//!
//! A styling sequence starts with the escape byte and runs through the next
//! `m` byte. Stripping removes every byte that belongs to such a sequence and
//! keeps every other byte. The model is what the identity law is stated over:
//! rendering only ever inserts whole styling sequences, so stripping the
//! rendered output gives back the original line.

use vstd::prelude::*;

verus! {

/// Escape byte that introduces a terminal control sequence.
pub const ESC: u8 = 0x1b;

/// Final byte of the styling control sequences (`m`).
pub const SGR_END: u8 = 0x6d;

/// Bytes that remain after removing every styling sequence from `s`, starting
/// in escape state `esc` (`true` means a sequence is open and unfinished).
pub open spec fn ansi_strip(s: Seq<u8>, esc: bool) -> Seq<u8>
    decreases s.len(),
{
    if s.len() == 0 {
        Seq::empty()
    } else if esc {
        ansi_strip(s.skip(1), s[0] != SGR_END)
    } else if s[0] == ESC {
        ansi_strip(s.skip(1), true)
    } else {
        seq![s[0]] + ansi_strip(s.skip(1), false)
    }
}

/// Escape state after scanning all of `s`, starting from state `esc`.
pub open spec fn esc_after(s: Seq<u8>, esc: bool) -> bool
    decreases s.len(),
{
    if s.len() == 0 {
        esc
    } else if esc {
        esc_after(s.skip(1), s[0] != SGR_END)
    } else {
        esc_after(s.skip(1), s[0] == ESC)
    }
}

/// A byte string that strips to nothing and leaves no sequence open: inserting
/// it anywhere outside a styling sequence is invisible after stripping.
pub open spec fn code_invisible(c: Seq<u8>) -> bool {
    ansi_strip(c, false) == Seq::<u8>::empty() && !esc_after(c, false)
}

/// `s` holds no escape byte at all.
pub open spec fn esc_free(s: Seq<u8>) -> bool {
    forall|k: int| 0 <= k < s.len() ==> s[k] != ESC
}

pub proof fn lemma_esc_after_empty(e: bool)
    ensures
        esc_after(Seq::<u8>::empty(), e) == e,
{
}

proof fn lemma_esc_after_one(b: u8, e: bool)
    ensures
        esc_after(seq![b], e) == (if e {
            b != SGR_END
        } else {
            b == ESC
        }),
{
    assert(seq![b].skip(1) =~= Seq::<u8>::empty());
    lemma_esc_after_empty(b != SGR_END);
    lemma_esc_after_empty(b == ESC);
}

/// Stripping distributes over concatenation: the right part is stripped in the
/// state the left part ends in.
pub proof fn lemma_strip_concat(a: Seq<u8>, b: Seq<u8>, esc: bool)
    ensures
        ansi_strip(a + b, esc) == ansi_strip(a, esc) + ansi_strip(b, esc_after(a, esc)),
        esc_after(a + b, esc) == esc_after(b, esc_after(a, esc)),
    decreases a.len(),
{
    if a.len() == 0 {
        assert(a + b =~= b);
        assert(ansi_strip(a, esc) + ansi_strip(b, esc) =~= ansi_strip(b, esc));
    } else {
        assert((a + b).skip(1) =~= a.skip(1) + b);
        let next = if esc {
            a[0] != SGR_END
        } else {
            a[0] == ESC
        };
        lemma_strip_concat(a.skip(1), b, next);
        if !esc && a[0] != ESC {
            assert(ansi_strip(a + b, esc) =~= ansi_strip(a, esc) + ansi_strip(
                b,
                esc_after(a, esc),
            ));
        }
    }
}

/// A byte string without the escape byte strips to itself and leaves the
/// scanner outside any sequence.
pub proof fn lemma_strip_plain(a: Seq<u8>)
    requires
        esc_free(a),
    ensures
        ansi_strip(a, false) == a,
        !esc_after(a, false),
    decreases a.len(),
{
    if a.len() == 0 {
        assert(ansi_strip(a, false) =~= a);
    } else {
        lemma_strip_plain(a.skip(1));
        assert(ansi_strip(a, false) =~= a);
    }
}

/// Inside an open sequence, everything up to and including the first `m` byte
/// is dropped and the sequence is closed.
proof fn lemma_strip_open_segment(c: Seq<u8>)
    requires
        c.len() >= 1,
        c[c.len() - 1] == SGR_END,
        forall|k: int| 0 <= k < c.len() - 1 ==> c[k] != SGR_END,
    ensures
        ansi_strip(c, true) == Seq::<u8>::empty(),
        !esc_after(c, true),
    decreases c.len(),
{
    assert(c[0] == SGR_END <==> c.len() == 1);
    if c.len() == 1 {
        assert(c.skip(1) =~= Seq::<u8>::empty());
        assert(ansi_strip(c, true) == ansi_strip(c.skip(1), false));
        assert(ansi_strip(c.skip(1), false) =~= Seq::<u8>::empty());
        lemma_esc_after_empty(false);
        assert(esc_after(c, true) == esc_after(c.skip(1), false));
    } else {
        assert(forall|k: int| 0 <= k < c.skip(1).len() - 1 ==> c.skip(1)[k] == c[k + 1]);
        lemma_strip_open_segment(c.skip(1));
        assert(ansi_strip(c, true) == ansi_strip(c.skip(1), true));
    }
}

/// A whole styling sequence (escape byte, a body free of `m`, a final `m`)
/// is invisible.
pub proof fn lemma_code_invisible(c: Seq<u8>)
    requires
        c.len() >= 2,
        c[0] == ESC,
        c[c.len() - 1] == SGR_END,
        forall|k: int| 1 <= k < c.len() - 1 ==> c[k] != SGR_END,
    ensures
        code_invisible(c),
{
    lemma_strip_open_segment(c.skip(1));
}

/// Two invisible byte strings concatenate to an invisible byte string.
pub proof fn lemma_invisible_concat(a: Seq<u8>, b: Seq<u8>)
    requires
        code_invisible(a),
        code_invisible(b),
    ensures
        code_invisible(a + b),
{
    lemma_strip_concat(a, b, false);
    assert(Seq::<u8>::empty() + Seq::<u8>::empty() =~= Seq::<u8>::empty());
}

/// Removes every styling sequence from `s`: drops each byte from an escape
/// byte through the next `m` byte, and keeps all others.
pub fn strip_codes(s: &[u8]) -> (r: Vec<u8>)
    ensures
        r@ == ansi_strip(s@, false),
{
    let mut out: Vec<u8> = Vec::new();
    let mut esc: bool = false;
    let mut i: usize = 0;
    proof {
        assert(s@.skip(0) =~= s@);
        assert(s@.take(0) =~= Seq::<u8>::empty());
        assert(out@ + ansi_strip(s@, false) =~= ansi_strip(s@, false));
    }
    while i < s.len()
        invariant
            0 <= i <= s@.len(),
            ansi_strip(s@, false) == out@ + ansi_strip(s@.skip(i as int), esc),
            esc == esc_after(s@.take(i as int), false),
        decreases s@.len() - i,
    {
        let b = s[i];
        proof {
            let one = seq![s@[i as int]];
            assert(s@.skip(i as int).len() > 0);
            assert(s@.skip(i as int)[0] == s@[i as int]);
            assert(s@.skip(i as int).skip(1) =~= s@.skip(i as int + 1));
            lemma_strip_concat(s@.take(i as int), one, false);
            assert(s@.take(i as int) + one =~= s@.take(i as int + 1));
            lemma_esc_after_one(s@[i as int], true);
            lemma_esc_after_one(s@[i as int], false);
        }
        if esc {
            if b == SGR_END {
                esc = false;
            }
        } else if b == ESC {
            esc = true;
        } else {
            out.push(b);
            proof {
                assert(out@ + ansi_strip(s@.skip(i as int + 1), esc) =~= out@.drop_last() + (seq![
                    s@[i as int],
                ] + ansi_strip(s@.skip(i as int + 1), esc)));
            }
        }
        i = i + 1;
    }
    proof {
        assert(s@.skip(i as int) =~= Seq::<u8>::empty());
        assert(out@ + ansi_strip(s@.skip(i as int), esc) =~= out@);
    }
    out
}

} // verus!
