//! The lexical grammar of SVG path data (`d` attributes) as the importer
//! reads it: separators (space, newline, tab, comma) between items; a
//! command letter (M, L, C, Z in either case) is one item; a run of number
//! bytes (digits, `.`, `-`, `+`, `e`, `E`) is one number item; any other
//! byte is an item of its own that the importer never gets past.

use vstd::prelude::*;

verus! {

/// An item of path data: a command letter, the byte span of a number, or
/// the position of a byte that is neither.
#[derive(Clone, Copy, Debug, PartialEq, Eq, Structural)]
pub enum PathToken {
    Command(u8),
    Number(usize, usize),
    Other(usize),
}

/// Byte `b` separates items.
pub open spec fn is_separator(b: u8) -> bool {
    b == 32 || b == 10 || b == 9 || b == 44
}

/// Byte `b` may be part of a number.
pub open spec fn is_number_byte(b: u8) -> bool {
    (48 <= b && b <= 57) || b == 46 || b == 45 || b == 43 || b == 101 || b == 69
}

/// Byte `b` is a command letter the importer knows: M, m, L, l, C, c, Z, z.
pub open spec fn is_command_byte(b: u8) -> bool {
    b == 77 || b == 109 || b == 76 || b == 108 || b == 67 || b == 99 || b == 90 || b == 122
}

/// The end of the run of number bytes of `s` that starts at `i`.
pub open spec fn number_end(s: Seq<u8>, i: int) -> int
    decreases s.len() - i,
{
    if 0 <= i < s.len() && is_number_byte(s[i]) {
        number_end(s, i + 1)
    } else {
        i
    }
}

/// The items of `s` from position `i` on.
pub open spec fn tokens_from(s: Seq<u8>, i: int) -> Seq<PathToken>
    decreases s.len() - i,
{
    if i < 0 || i >= s.len() {
        seq![]
    } else if is_separator(s[i]) {
        tokens_from(s, i + 1)
    } else if is_command_byte(s[i]) {
        seq![PathToken::Command(s[i])] + tokens_from(s, i + 1)
    } else if is_number_byte(s[i]) {
        proof {
            lemma_number_end_bounds(s, i + 1);
        }
        seq![PathToken::Number(i as usize, number_end(s, i + 1) as usize)] + tokens_from(s, number_end(s, i + 1))
    } else {
        seq![PathToken::Other(i as usize)] + tokens_from(s, i + 1)
    }
}

/// A run of number bytes ends between its start and the end of `s`.
pub proof fn lemma_number_end_bounds(s: Seq<u8>, i: int)
    requires
        0 <= i <= s.len(),
    ensures
        i <= number_end(s, i) <= s.len(),
        forall|k: int| i <= k < number_end(s, i) ==> is_number_byte(#[trigger] s[k]),
        number_end(s, i) < s.len() ==> !is_number_byte(s[number_end(s, i)]),
    decreases s.len() - i,
{
    if i < s.len() && is_number_byte(s[i]) {
        lemma_number_end_bounds(s, i + 1);
    }
}

fn is_separator_byte(b: u8) -> (r: bool)
    ensures
        r == is_separator(b),
{
    b == 32 || b == 10 || b == 9 || b == 44
}

fn is_number_char(b: u8) -> (r: bool)
    ensures
        r == is_number_byte(b),
{
    (48 <= b && b <= 57) || b == 46 || b == 45 || b == 43 || b == 101 || b == 69
}

/// Whether `b` is a command letter of path data.
pub fn is_command(b: u8) -> (r: bool)
    ensures
        r == is_command_byte(b),
{
    b == 77 || b == 109 || b == 76 || b == 108 || b == 67 || b == 99 || b == 90 || b == 122
}

/// The items of the path data `d`, in order.
pub fn path_tokens(d: &[u8]) -> (toks: Vec<PathToken>)
    ensures
        toks@ == tokens_from(d@, 0),
{
    let mut toks: Vec<PathToken> = Vec::new();
    let mut i: usize = 0;
    while i < d.len()
        invariant
            i <= d@.len(),
            tokens_from(d@, 0) == toks@ + tokens_from(d@, i as int),
        decreases d@.len() - i,
    {
        let ghost t0 = toks@;
        let b = d[i];
        if is_separator_byte(b) {
            i = i + 1;
        } else if is_command(b) {
            toks.push(PathToken::Command(b));
            proof {
                assert(t0 + tokens_from(d@, i as int) =~= toks@ + tokens_from(d@, i + 1));
            }
            i = i + 1;
        } else if is_number_char(b) {
            let mut e: usize = i + 1;
            proof {
                lemma_number_end_bounds(d@, i + 1);
            }
            while e < d.len() && is_number_char(d[e])
                invariant
                    i < e <= d@.len(),
                    number_end(d@, e as int) == number_end(d@, i + 1),
                decreases d@.len() - e,
            {
                e = e + 1;
            }
            toks.push(PathToken::Number(i, e));
            proof {
                assert(number_end(d@, i + 1) == e);
                assert(t0 + tokens_from(d@, i as int) =~= toks@ + tokens_from(d@, e as int));
            }
            i = e;
        } else {
            toks.push(PathToken::Other(i));
            proof {
                assert(t0 + tokens_from(d@, i as int) =~= toks@ + tokens_from(d@, i + 1));
            }
            i = i + 1;
        }
    }
    proof {
        assert(toks@ + tokens_from(d@, i as int) =~= toks@);
    }
    toks
}

} // verus!
