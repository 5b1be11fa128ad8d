//! The move-string encoder: greedy macro substitution.  A repeated
//! alphabetic substring is replaced by a single digit symbol and recorded
//! as a macro definition; the output is the rewritten string with its
//! macro definitions joined by `;`.  The output never exceeds the input in
//! length, and expanding the macro references of the output reproduces the
//! input exactly.
use vstd::prelude::*;

use crate::strutil::{from_chars, string_push, to_chars};

verus! {

/// Greatest number of macros the encoder introduces.
pub const MACRO_CAP: usize = 8;

/// An ASCII letter; only substrings of letters become macros.
pub open spec fn is_letter(c: char) -> bool {
    (65 <= c as u32 <= 90) || (97 <= c as u32 <= 122)
}

/// A decimal digit symbol; digits serve as macro references.
pub open spec fn is_digit_sym(c: char) -> bool {
    48 <= c as u32 <= 57
}

/// A character free for the encoder's own use: neither a digit (macro
/// reference) nor `;` (definition separator).  Move strings are plain.
pub open spec fn plain_char(c: char) -> bool {
    c != ';' && !is_digit_sym(c)
}

pub open spec fn plain_text(t: Seq<char>) -> bool {
    forall|i: int| 0 <= i < t.len() ==> plain_char(#[trigger] t[i])
}

pub open spec fn letters_only(t: Seq<char>) -> bool {
    forall|i: int| 0 <= i < t.len() ==> is_letter(#[trigger] t[i])
}

/// The digit symbol referring to macro number `d` (1-based).
pub open spec fn ref_sym(d: int) -> char {
    if d == 1 {
        '1'
    } else if d == 2 {
        '2'
    } else if d == 3 {
        '3'
    } else if d == 4 {
        '4'
    } else if d == 5 {
        '5'
    } else if d == 6 {
        '6'
    } else if d == 7 {
        '7'
    } else {
        '8'
    }
}

/// The views of a vector of character vectors.
pub open spec fn views_of(ms: Seq<Vec<char>>) -> Seq<Seq<char>> {
    ms.map_values(|m: Vec<char>| m@)
}

/// What one character of an encoded string stands for: a digit `d` with
/// `1 <= d <= defs.len()` expands to definition `d`, anything else to
/// itself.
pub open spec fn expand_char(c: char, defs: Seq<Seq<char>>) -> Seq<char> {
    let d = c as u32 as int - 48;
    if is_digit_sym(c) && 1 <= d <= defs.len() {
        defs[d - 1]
    } else {
        seq![c]
    }
}

/// Expansion of every macro reference in `t` using `defs`.
pub open spec fn expand(t: Seq<char>, defs: Seq<Seq<char>>) -> Seq<char>
    decreases t.len(),
{
    if t.len() == 0 {
        Seq::empty()
    } else {
        expand_char(t[0], defs) + expand(t.drop_first(), defs)
    }
}

/// `t` starts with `pat`.
pub open spec fn begins_with(t: Seq<char>, pat: Seq<char>) -> bool {
    pat.len() <= t.len() && t.subrange(0, pat.len() as int) == pat
}

/// Number of left-to-right, non-overlapping occurrences of `pat` in `t`.
pub open spec fn count_occ(t: Seq<char>, pat: Seq<char>) -> nat
    decreases t.len(),
{
    if pat.len() == 0 || t.len() == 0 {
        0
    } else if begins_with(t, pat) {
        1 + count_occ(t.skip(pat.len() as int), pat)
    } else {
        count_occ(t.drop_first(), pat)
    }
}

/// `t` with every left-to-right, non-overlapping occurrence of `pat`
/// replaced by the single character `rep` (as `str::replace` would).
pub open spec fn subst(t: Seq<char>, pat: Seq<char>, rep: char) -> Seq<char>
    decreases t.len(),
{
    if pat.len() == 0 || t.len() == 0 {
        t
    } else if begins_with(t, pat) {
        seq![rep] + subst(t.skip(pat.len() as int), pat, rep)
    } else {
        seq![t[0]] + subst(t.drop_first(), pat, rep)
    }
}

/// The macro definitions rendered as `;`-prefixed suffixes.
pub open spec fn join_tail(defs: Seq<Seq<char>>) -> Seq<char>
    decreases defs.len(),
{
    if defs.len() == 0 {
        Seq::empty()
    } else {
        seq![';'] + defs[0] + join_tail(defs.drop_first())
    }
}

/// The full encoded form: the rewritten string, then each definition
/// preceded by `;`.
pub open spec fn encoded_form(main: Seq<char>, defs: Seq<Seq<char>>) -> Seq<char> {
    main + join_tail(defs)
}

/// Index of the first `;` in `t` (`t.len()` when there is none).
pub open spec fn find_sep(t: Seq<char>) -> nat
    decreases t.len(),
{
    if t.len() == 0 {
        0
    } else if t[0] == ';' {
        0
    } else {
        1 + find_sep(t.drop_first())
    }
}

/// `t` split at every `;`.
pub open spec fn split_parts(t: Seq<char>) -> Seq<Seq<char>>
    decreases t.len(),
{
    let i = find_sep(t) as int;
    if i >= t.len() {
        seq![t]
    } else {
        seq![t.take(i)] + split_parts(t.skip(i + 1))
    }
}

/// Decoding an encoded move string: split off the trailing macro
/// definitions and expand every reference in the leading part.
pub open spec fn decode_moves(t: Seq<char>) -> Seq<char> {
    let parts = split_parts(t);
    expand(parts[0], parts.drop_first())
}

/// Every digit in `t` refers to one of the first `n` macros.
pub open spec fn refs_bounded(t: Seq<char>, n: int) -> bool {
    forall|i: int|
        0 <= i < t.len() && is_digit_sym(#[trigger] t[i]) ==> 49 <= t[i] as u32 <= 48 + n
}

/// Length accounting of substitution: each of the `count_occ` occurrences
/// shrinks to one character.
pub proof fn lemma_subst_len(t: Seq<char>, pat: Seq<char>, rep: char)
    requires
        pat.len() >= 1,
    ensures
        subst(t, pat, rep).len() == t.len() - count_occ(t, pat) * (pat.len() - 1),
        count_occ(t, pat) * (pat.len() - 1) <= t.len(),
    decreases t.len(),
{
    let m = pat.len() as int;
    if t.len() == 0 {
        assert(count_occ(t, pat) == 0);
        assert(count_occ(t, pat) * (pat.len() - 1) == 0) by (nonlinear_arith)
            requires
                count_occ(t, pat) == 0,
        ;
    } else if begins_with(t, pat) {
        lemma_subst_len(t.skip(m), pat, rep);
        assert(count_occ(t, pat) == count_occ(t.skip(m), pat) + 1);
        assert(subst(t, pat, rep) =~= seq![rep] + subst(t.skip(m), pat, rep));
        assert(count_occ(t, pat) * (pat.len() - 1) == count_occ(t.skip(m), pat) * (pat.len() - 1)
            + (pat.len() - 1)) by (nonlinear_arith)
            requires
                count_occ(t, pat) == count_occ(t.skip(m), pat) + 1,
        ;
    } else {
        lemma_subst_len(t.drop_first(), pat, rep);
        assert(count_occ(t, pat) == count_occ(t.drop_first(), pat));
        assert(subst(t, pat, rep) =~= seq![t[0]] + subst(t.drop_first(), pat, rep));
        assert(count_occ(t, pat) * (pat.len() - 1) == count_occ(t.drop_first(), pat) * (pat.len()
            - 1)) by (nonlinear_arith)
            requires
                count_occ(t, pat) == count_occ(t.drop_first(), pat),
        ;
    }
}

/// Every character of a substitution result is the replacement or comes
/// from the original string.
pub proof fn lemma_subst_chars(t: Seq<char>, pat: Seq<char>, rep: char)
    ensures
        forall|i: int|
            0 <= i < subst(t, pat, rep).len() ==> (#[trigger] subst(t, pat, rep)[i]) == rep
                || t.contains(subst(t, pat, rep)[i]),
    decreases t.len(),
{
    let m = pat.len() as int;
    let res = subst(t, pat, rep);
    if pat.len() == 0 || t.len() == 0 {
        assert(forall|i: int| 0 <= i < t.len() ==> t.contains(#[trigger] t[i]));
    } else if begins_with(t, pat) {
        lemma_subst_chars(t.skip(m), pat, rep);
        assert forall|i: int| 0 <= i < res.len() implies res[i] == rep || t.contains(res[i]) by {
            if i > 0 {
                let x = res[i];
                assert(x == subst(t.skip(m), pat, rep)[i - 1]);
                if x != rep {
                    let w = choose|w: int| 0 <= w < t.skip(m).len() && t.skip(m)[w] == x;
                    assert(t[w + m] == x);
                }
            }
        }
    } else {
        lemma_subst_chars(t.drop_first(), pat, rep);
        assert forall|i: int| 0 <= i < res.len() implies res[i] == rep || t.contains(res[i]) by {
            if i == 0 {
                assert(t.contains(t[0]));
            } else {
                let x = res[i];
                assert(x == subst(t.drop_first(), pat, rep)[i - 1]);
                if x != rep {
                    let w = choose|w: int|
                        0 <= w < t.drop_first().len() && t.drop_first()[w] == x;
                    assert(t[w + 1] == x);
                }
            }
        }
    }
}

/// Expansion distributes over concatenation.
pub proof fn lemma_expand_concat(a: Seq<char>, b: Seq<char>, defs: Seq<Seq<char>>)
    ensures
        expand(a + b, defs) == expand(a, defs) + expand(b, defs),
    decreases a.len(),
{
    if a.len() == 0 {
        assert(a + b =~= b);
        assert(expand(a, defs) + expand(b, defs) =~= expand(b, defs));
    } else {
        assert((a + b)[0] == a[0]);
        assert((a + b).drop_first() =~= a.drop_first() + b);
        lemma_expand_concat(a.drop_first(), b, defs);
        assert(expand_char(a[0], defs) + (expand(a.drop_first(), defs) + expand(b, defs)) =~= (
        expand_char(a[0], defs) + expand(a.drop_first(), defs)) + expand(b, defs));
    }
}

/// A string of letters holds no reference and expands to itself.
pub proof fn lemma_expand_letters(t: Seq<char>, defs: Seq<Seq<char>>)
    requires
        letters_only(t),
    ensures
        expand(t, defs) == t,
    decreases t.len(),
{
    if t.len() > 0 {
        assert(is_letter(t[0]));
        assert(expand_char(t[0], defs) == seq![t[0]]);
        lemma_expand_letters(t.drop_first(), defs);
        assert(seq![t[0]] + t.drop_first() =~= t);
    }
}

/// The digit symbol for macro `d` carries code `48 + d`.
pub proof fn lemma_ref_sym_code(d: int)
    requires
        1 <= d <= 8,
    ensures
        ref_sym(d) as u32 == 48 + d,
        is_digit_sym(ref_sym(d)),
{
}

/// The round-trip core: substituting a fresh reference for an alphabetic
/// pattern and recording the pattern as a new definition leaves the
/// expansion unchanged.
pub proof fn lemma_expand_subst(t: Seq<char>, pat: Seq<char>, defs: Seq<Seq<char>>)
    requires
        pat.len() >= 1,
        letters_only(pat),
        defs.len() < MACRO_CAP,
        forall|i: int| 0 <= i < t.len() ==> (#[trigger] t[i]) as u32 != 49 + defs.len(),
    ensures
        expand(subst(t, pat, ref_sym((defs.len() + 1) as int)), defs.push(pat)) == expand(t, defs),
    decreases t.len(),
{
    let m = pat.len() as int;
    let n = defs.len() as int;
    let rep = ref_sym(n + 1);
    let defs2 = defs.push(pat);
    lemma_ref_sym_code(n + 1);
    if t.len() == 0 {
    } else if begins_with(t, pat) {
        let tail = t.skip(m);
        assert(forall|i: int|
            0 <= i < tail.len() ==> (#[trigger] tail[i]) as u32 != 49 + defs.len()) by {
            assert(forall|i: int| 0 <= i < tail.len() ==> tail[i] == #[trigger] t[i + m]);
        }
        lemma_expand_subst(tail, pat, defs);
        let stail = subst(tail, pat, rep);
        assert(subst(t, pat, rep) =~= seq![rep] + stail);
        // expansion of the left side
        assert(expand_char(rep, defs2) == pat) by {
            assert(rep as u32 as int - 48 == n + 1);
        }
        assert((seq![rep] + stail).drop_first() =~= stail);
        assert((seq![rep] + stail)[0] == rep);
        assert(expand(seq![rep] + stail, defs2) == pat + expand(stail, defs2));
        // expansion of the right side
        assert(t =~= pat + tail);
        lemma_expand_concat(pat, tail, defs);
        lemma_expand_letters(pat, defs);
    } else {
        let tail = t.drop_first();
        assert(forall|i: int|
            0 <= i < tail.len() ==> (#[trigger] tail[i]) as u32 != 49 + defs.len()) by {
            assert(forall|i: int| 0 <= i < tail.len() ==> tail[i] == #[trigger] t[i + 1]);
        }
        lemma_expand_subst(tail, pat, defs);
        let stail = subst(tail, pat, rep);
        assert(subst(t, pat, rep) =~= seq![t[0]] + stail);
        assert((seq![t[0]] + stail).drop_first() =~= stail);
        assert((seq![t[0]] + stail)[0] == t[0]);
        assert(t[0] as u32 != 49 + defs.len());
        assert(expand_char(t[0], defs2) == expand_char(t[0], defs)) by {
            if is_digit_sym(t[0]) {
                let d = t[0] as u32 as int - 48;
                if 1 <= d <= defs.len() {
                    assert(defs2[d - 1] == defs[d - 1]);
                }
            }
        }
        assert(expand(seq![t[0]] + stail, defs2) == expand_char(t[0], defs2) + expand(
            stail,
            defs2,
        ));
        assert(expand(t, defs) == expand_char(t[0], defs) + expand(tail, defs));
    }
}

/// Appending one definition appends `;` and the definition's text.
pub proof fn lemma_join_tail_push(defs: Seq<Seq<char>>, p: Seq<char>)
    ensures
        join_tail(defs.push(p)) == join_tail(defs) + seq![';'] + p,
    decreases defs.len(),
{
    if defs.len() == 0 {
        assert(defs.push(p)[0] == p);
        assert(defs.push(p).drop_first() =~= Seq::<Seq<char>>::empty());
        assert(seq![';'] + p + Seq::<char>::empty() =~= join_tail(defs) + seq![';'] + p);
        assert(join_tail(defs.push(p)) =~= seq![';'] + p + join_tail(
            defs.push(p).drop_first(),
        ));
    } else {
        assert(defs.push(p)[0] == defs[0]);
        assert(defs.push(p).drop_first() =~= defs.drop_first().push(p));
        lemma_join_tail_push(defs.drop_first(), p);
        assert(seq![';'] + defs[0] + (join_tail(defs.drop_first()) + seq![';'] + p) =~= (seq![';']
            + defs[0] + join_tail(defs.drop_first())) + seq![';'] + p);
    }
}

/// A string without `;` has no separator to find.
pub proof fn lemma_find_sep_absent(t: Seq<char>)
    requires
        forall|i: int| 0 <= i < t.len() ==> (#[trigger] t[i]) != ';',
    ensures
        find_sep(t) == t.len(),
    decreases t.len(),
{
    if t.len() > 0 {
        lemma_find_sep_absent(t.drop_first());
    }
}

/// The first separator after a `;`-free prefix stands right behind it.
pub proof fn lemma_find_sep_concat(a: Seq<char>, b: Seq<char>)
    requires
        forall|i: int| 0 <= i < a.len() ==> (#[trigger] a[i]) != ';',
    ensures
        find_sep(a + seq![';'] + b) == a.len(),
    decreases a.len(),
{
    let t = a + seq![';'] + b;
    if a.len() == 0 {
        assert(t[0] == ';');
    } else {
        assert(t[0] == a[0]);
        assert(t.drop_first() =~= a.drop_first() + seq![';'] + b);
        lemma_find_sep_concat(a.drop_first(), b);
    }
}

/// Splitting the encoded form recovers the rewritten string and the
/// definitions, provided none of them contains `;`.
pub proof fn lemma_split_encoded(main: Seq<char>, defs: Seq<Seq<char>>)
    requires
        forall|i: int| 0 <= i < main.len() ==> (#[trigger] main[i]) != ';',
        forall|k: int, i: int|
            0 <= k < defs.len() && 0 <= i < defs[k].len() ==> (#[trigger] defs[k][i]) != ';',
    ensures
        split_parts(encoded_form(main, defs)) == seq![main] + defs,
    decreases defs.len(),
{
    let t = encoded_form(main, defs);
    if defs.len() == 0 {
        assert(t =~= main);
        lemma_find_sep_absent(main);
        assert(split_parts(t) =~= seq![main]);
        assert(seq![main] + defs =~= seq![main]);
    } else {
        let rest = defs.drop_first();
        assert(t =~= main + seq![';'] + encoded_form(defs[0], rest));
        lemma_find_sep_concat(main, encoded_form(defs[0], rest));
        let i = find_sep(t) as int;
        assert(i == main.len());
        assert(i < t.len());
        assert(t.take(i) =~= main);
        assert(t.skip(i + 1) =~= encoded_form(defs[0], rest));
        assert(forall|k: int, j: int|
            0 <= k < rest.len() && 0 <= j < rest[k].len() ==> (#[trigger] rest[k][j]) != ';')
            by {
            assert(forall|k: int|
                0 <= k < rest.len() ==> rest[k] == #[trigger] defs[k + 1]);
        }
        assert(forall|j: int| 0 <= j < defs[0].len() ==> (#[trigger] defs[0][j]) != ';');
        lemma_split_encoded(defs[0], rest);
        assert(split_parts(t) =~= seq![main] + (seq![defs[0]] + rest));
        assert(seq![main] + (seq![defs[0]] + rest) =~= seq![main] + defs);
    }
}


/// A window of `t` fit to become a macro: on the string, alphabetic, and
/// of length 2 to 9.
pub open spec fn candidate_ok(t: Seq<char>, c: (usize, usize)) -> bool {
    &&& c.0 + c.1 <= t.len()
    &&& 2 <= c.1 <= 9
    &&& letters_only(t.subrange(c.0 as int, (c.0 + c.1) as int))
}

/// How many characters replacing every occurrence of the window saves,
/// the `;`-joined definition suffix accounted for.
pub open spec fn reduction(t: Seq<char>, c: (usize, usize)) -> int {
    count_occ(t, t.subrange(c.0 as int, (c.0 + c.1) as int)) * (c.1 - 1) - (c.1 + 1)
}

/// A string without digit symbols expands to itself.
pub proof fn lemma_expand_no_digits(t: Seq<char>, defs: Seq<Seq<char>>)
    requires
        forall|i: int| 0 <= i < t.len() ==> !is_digit_sym(#[trigger] t[i]),
    ensures
        expand(t, defs) == t,
    decreases t.len(),
{
    if t.len() > 0 {
        assert(expand_char(t[0], defs) == seq![t[0]]);
        assert(forall|i: int|
            0 <= i < t.drop_first().len() ==> t.drop_first()[i] == #[trigger] t[i + 1]);
        lemma_expand_no_digits(t.drop_first(), defs);
        assert(seq![t[0]] + t.drop_first() =~= t);
    }
}

fn is_letter_x(c: char) -> (r: bool)
    ensures
        r == is_letter(c),
{
    let u = c as u32;
    (65 <= u && u <= 90) || (97 <= u && u <= 122)
}

/// The digit symbol referring to macro number `d`.
fn ref_char(d: usize) -> (c: char)
    requires
        1 <= d <= MACRO_CAP,
    ensures
        c == ref_sym(d as int),
{
    if d == 1 {
        '1'
    } else if d == 2 {
        '2'
    } else if d == 3 {
        '3'
    } else if d == 4 {
        '4'
    } else if d == 5 {
        '5'
    } else if d == 6 {
        '6'
    } else if d == 7 {
        '7'
    } else {
        '8'
    }
}

/// The characters of `s` from `st` on, `m` of them.
fn copy_range(s: &Vec<char>, st: usize, m: usize) -> (out: Vec<char>)
    requires
        st + m <= s@.len(),
    ensures
        out@ == s@.subrange(st as int, (st + m) as int),
{
    let n = s.len();
    let mut out: Vec<char> = Vec::new();
    for j in 0..m
        invariant
            n == s@.len(),
            st + m <= n,
            out@ =~= s@.subrange(st as int, (st + j) as int),
    {
        out.push(s[st + j]);
        proof {
            assert(out@ =~= s@.subrange(st as int, (st + j + 1) as int));
        }
    }
    out
}

/// Whether `pat` occurs in `s` at offset `i`.
fn match_at(s: &Vec<char>, i: usize, pat: &Vec<char>) -> (r: bool)
    requires
        i <= s@.len(),
    ensures
        r == begins_with(s@.skip(i as int), pat@),
{
    let m = pat.len();
    let ln = s.len();
    if m > ln - i {
        return false;
    }
    for k in 0..m
        invariant
            ln == s@.len(),
            i + m <= ln,
            m == pat@.len(),
            forall|j: int| 0 <= j < k ==> s@[i + j] == pat@[j],
    {
        if s[i + k] != pat[k] {
            proof {
                assert(s@.skip(i as int)[k as int] == s@[i + k]);
                if begins_with(s@.skip(i as int), pat@) {
                    assert(s@.skip(i as int).subrange(0, m as int)[k as int] == pat@[
                    k as int]);
                    assert(false);
                }
            }
            return false;
        }
    }
    proof {
        assert(s@.skip(i as int).subrange(0, m as int) =~= pat@);
    }
    true
}

/// Number of left-to-right, non-overlapping occurrences of `pat` in `s`.
fn count_occ_x(s: &Vec<char>, pat: &Vec<char>) -> (n: usize)
    requires
        pat@.len() >= 1,
    ensures
        n == count_occ(s@, pat@),
{
    let m = pat.len();
    let mut i: usize = 0;
    let mut n: usize = 0;
    proof {
        assert(s@.skip(0) =~= s@);
    }
    while i < s.len()
        invariant
            m == pat@.len(),
            m >= 1,
            i <= s@.len(),
            n <= i,
            count_occ(s@, pat@) == n + count_occ(s@.skip(i as int), pat@),
        decreases s@.len() - i,
    {
        if match_at(s, i, pat) {
            proof {
                assert(s@.skip(i as int).skip(m as int) =~= s@.skip((i + m) as int));
            }
            n = n + 1;
            i = i + m;
        } else {
            proof {
                assert(s@.skip(i as int).drop_first() =~= s@.skip(i as int + 1));
            }
            i = i + 1;
        }
    }
    proof {
        assert(s@.skip(i as int) =~= Seq::<char>::empty());
    }
    n
}

/// `s` with every left-to-right, non-overlapping occurrence of `pat`
/// replaced by `rep`.
fn subst_x(s: &Vec<char>, pat: &Vec<char>, rep: char) -> (out: Vec<char>)
    requires
        pat@.len() >= 1,
    ensures
        out@ == subst(s@, pat@, rep),
{
    let m = pat.len();
    let mut i: usize = 0;
    let mut out: Vec<char> = Vec::new();
    proof {
        assert(s@.skip(0) =~= s@);
        assert(Seq::<char>::empty() + subst(s@, pat@, rep) =~= subst(s@, pat@, rep));
    }
    while i < s.len()
        invariant
            m == pat@.len(),
            m >= 1,
            i <= s@.len(),
            subst(s@, pat@, rep) == out@ + subst(s@.skip(i as int), pat@, rep),
        decreases s@.len() - i,
    {
        if match_at(s, i, pat) {
            proof {
                assert(s@.skip(i as int).skip(m as int) =~= s@.skip((i + m) as int));
                assert((out@ + (seq![rep] + subst(s@.skip((i + m) as int), pat@, rep))) =~= (out@.push(
                rep) + subst(s@.skip((i + m) as int), pat@, rep)));
            }
            out.push(rep);
            i = i + m;
        } else {
            let c = s[i];
            proof {
                assert(s@.skip(i as int).drop_first() =~= s@.skip(i as int + 1));
                assert(s@.skip(i as int)[0] == s@[i as int]);
                assert((out@ + (seq![c] + subst(s@.skip(i as int + 1), pat@, rep))) =~= (out@.push(c)
                    + subst(s@.skip(i as int + 1), pat@, rep)));
            }
            out.push(c);
            i = i + 1;
        }
    }
    proof {
        assert(s@.skip(i as int) =~= Seq::<char>::empty());
        assert(out@ + Seq::<char>::empty() =~= out@);
    }
    out
}

/// Whether the window of `s` at `st` of length `m` is alphabetic.
fn letters_range(s: &Vec<char>, st: usize, m: usize) -> (r: bool)
    requires
        st + m <= s@.len(),
    ensures
        r == letters_only(s@.subrange(st as int, (st + m) as int)),
{
    let n = s.len();
    for k in 0..m
        invariant
            n == s@.len(),
            st + m <= n,
            forall|j: int| 0 <= j < k ==> is_letter(#[trigger] s@[st + j]),
    {
        if !is_letter_x(s[st + k]) {
            proof {
                assert(s@.subrange(st as int, (st + m) as int)[k as int] == s@[st + k]);
            }
            return false;
        }
    }
    proof {
        assert forall|j: int| 0 <= j < m implies is_letter(
            #[trigger] s@.subrange(st as int, (st + m) as int)[j],
        ) by {
            assert(s@.subrange(st as int, (st + m) as int)[j] == s@[st + j]);
        }
    }
    true
}

/// Collects the candidate macro substrings of `s`: exactly the
/// alphabetic windows of length 2 to 9, given by offset and length.
fn find_substrings(s: &Vec<char>) -> (cands: Vec<(usize, usize)>)
    ensures
        forall|k: int| 0 <= k < cands@.len() ==> candidate_ok(s@, #[trigger] cands@[k]),
        forall|st: int, m: int|
            #![trigger cands@.contains((st as usize, m as usize))]
            0 <= st && 2 <= m <= 9 && st + m <= s@.len() && letters_only(
                s@.subrange(st, st + m),
            ) ==> cands@.contains((st as usize, m as usize)),
{
    let mut cands: Vec<(usize, usize)> = Vec::new();
    let n = s.len();
    for st in 0..n
        invariant
            n == s@.len(),
            forall|k: int| 0 <= k < cands@.len() ==> candidate_ok(s@, #[trigger] cands@[k]),
            forall|st2: int, m2: int|
                #![trigger cands@.contains((st2 as usize, m2 as usize))]
                0 <= st2 < st && 2 <= m2 <= 9 && st2 + m2 <= s@.len() && letters_only(
                    s@.subrange(st2, st2 + m2),
                ) ==> cands@.contains((st2 as usize, m2 as usize)),
    {
        let mut m: usize = 2;
        while m <= 9 && m <= n - st
            invariant
                n == s@.len(),
                st < n,
                2 <= m,
                forall|k: int| 0 <= k < cands@.len() ==> candidate_ok(s@, #[trigger] cands@[k]),
                forall|st2: int, m2: int|
                    #![trigger cands@.contains((st2 as usize, m2 as usize))]
                    0 <= st2 < st && 2 <= m2 <= 9 && st2 + m2 <= s@.len() && letters_only(
                        s@.subrange(st2, st2 + m2),
                    ) ==> cands@.contains((st2 as usize, m2 as usize)),
                forall|m2: int|
                    #![trigger cands@.contains((st as usize, m2 as usize))]
                    2 <= m2 < m && st + m2 <= s@.len() && letters_only(
                        s@.subrange(st as int, st + m2),
                    ) ==> cands@.contains((st as usize, m2 as usize)),
            decreases 10 - m,
        {
            if letters_range(s, st, m) {
                let ghost old_cands = cands@;
                cands.push((st, m));
                proof {
                    assert(cands@[old_cands.len() as int] == (st, m));
                    assert(cands@.contains((st, m)));
                    assert forall|st2: int, m2: int|
                        #![trigger cands@.contains((st2 as usize, m2 as usize))]
                        0 <= st2 < st && 2 <= m2 <= 9 && st2 + m2 <= s@.len() && letters_only(
                            s@.subrange(st2, st2 + m2),
                        ) implies cands@.contains((st2 as usize, m2 as usize)) by {
                        assert(old_cands.contains((st2 as usize, m2 as usize)));
                        let w = choose|w: int|
                            0 <= w < old_cands.len() && old_cands[w] == (
                            st2 as usize,
                            m2 as usize,
                            );
                        assert(cands@[w] == (st2 as usize, m2 as usize));
                    }
                    assert forall|m2: int|
                        #![trigger cands@.contains((st as usize, m2 as usize))]
                        2 <= m2 < m + 1 && st + m2 <= s@.len() && letters_only(
                            s@.subrange(st as int, st + m2),
                        ) implies cands@.contains((st as usize, m2 as usize)) by {
                        if m2 < m {
                            assert(old_cands.contains((st as usize, m2 as usize)));
                            let w = choose|w: int|
                                0 <= w < old_cands.len() && old_cands[w] == (
                                st as usize,
                                m2 as usize,
                                );
                            assert(cands@[w] == (st as usize, m2 as usize));
                        }
                    }
                }
            }
            m = m + 1;
        }
        proof {
            assert forall|st2: int, m2: int|
                #![trigger cands@.contains((st2 as usize, m2 as usize))]
                0 <= st2 < st + 1 && 2 <= m2 <= 9 && st2 + m2 <= s@.len() && letters_only(
                    s@.subrange(st2, st2 + m2),
                ) implies cands@.contains((st2 as usize, m2 as usize)) by {}
        }
    }
    proof {
        assert forall|st: int, m: int|
            #![trigger cands@.contains((st as usize, m as usize))]
            0 <= st && 2 <= m <= 9 && st + m <= s@.len() && letters_only(
                s@.subrange(st, st + m),
            ) implies cands@.contains((st as usize, m as usize)) by {
            assert(st < s@.len());
        }
    }
    cands
}

/// Orders the candidates by the length reduction their substitution
/// would bring and yields the most profitable one, ties to the first
/// found; `None` exactly when no candidate reduces the encoded length.
fn sort_substring(s: &Vec<char>, cands: &Vec<(usize, usize)>) -> (best: Option<(usize, usize)>)
    requires
        forall|k: int| 0 <= k < cands@.len() ==> candidate_ok(s@, #[trigger] cands@[k]),
    ensures
        (match best {
            Some(c) => {
                &&& candidate_ok(s@, c)
                &&& reduction(s@, c) > 0
                &&& forall|k: int|
                    0 <= k < cands@.len() ==> reduction(s@, #[trigger] cands@[k]) <= reduction(
                        s@,
                        c,
                    )
                &&& exists|k0: int|
                    0 <= k0 < cands@.len() && cands@[k0] == c && (forall|k: int|
                        0 <= k < k0 ==> reduction(s@, #[trigger] cands@[k]) < reduction(s@, c))
            },
            None => forall|k: int| 0 <= k < cands@.len() ==> reduction(s@, #[trigger] cands@[k])
                <= 0,
        }),
{
    let mut best: Option<(usize, usize)> = None;
    let mut best_rp: u128 = 0;
    let ghost mut best_k: int = 0;
    let nc = cands.len();
    let sl = s.len();
    for k in 0..nc
        invariant
            sl == s@.len(),
            nc == cands@.len(),
            forall|j: int| 0 <= j < cands@.len() ==> candidate_ok(s@, #[trigger] cands@[j]),
            (match best {
                Some(c) => {
                    &&& candidate_ok(s@, c)
                    &&& reduction(s@, c) > 0
                    &&& best_rp == reduction(s@, c) + 10
                    &&& 0 <= best_k < k && cands@[best_k] == c
                    &&& forall|j: int|
                        0 <= j < k ==> reduction(s@, #[trigger] cands@[j]) <= reduction(s@, c)
                    &&& forall|j: int|
                        0 <= j < best_k ==> reduction(s@, #[trigger] cands@[j]) < reduction(
                            s@,
                            c,
                        )
                },
                None => forall|j: int|
                    0 <= j < k ==> reduction(s@, #[trigger] cands@[j]) <= 0,
            }),
    {
        let (st, m) = cands[k];
        proof {
            assert(candidate_ok(s@, cands@[k as int]));
            assert(st == cands@[k as int].0 && m == cands@[k as int].1);
        }
        let pat = copy_range(s, st, m);
        let cnt = count_occ_x(s, &pat);
        proof {
            lemma_subst_len(s@, pat@, '0');
            assert((cnt as int) * ((m as int) - 1) == count_occ(s@, pat@) * (pat@.len() - 1))
                by (nonlinear_arith)
                requires
                    cnt == count_occ(s@, pat@),
                    m as int == pat@.len(),
            ;
            assert((cnt as int) * ((m as int) - 1) <= s@.len());
        }
        let rp: u128 = (cnt as u128) * ((m - 1) as u128) + ((9 - m) as u128);
        proof {
            assert(rp == reduction(s@, cands@[k as int]) + 10);
        }
        let better = match best {
            None => true,
            Some(_) => rp > best_rp,
        };
        if rp > 10 && better {
            best = Some((st, m));
            best_rp = rp;
            proof {
                best_k = k as int;
            }
        }
    }
    best
}

/// Greedy macro substitution with an explicit macro stack: as long as
/// some alphabetic substring saves length, the most profitable one is
/// replaced by the next digit symbol and recorded, up to `MACRO_CAP`
/// macros.
fn compress_string(s: &Vec<char>, macros: &mut Vec<Vec<char>>) -> (out: Vec<char>)
    requires
        old(macros)@.len() == 0,
    ensures
        final(macros)@.len() <= MACRO_CAP,
        forall|k: int|
            0 <= k < final(macros)@.len() ==> letters_only((#[trigger] final(macros)@[k])@)
                && final(macros)@[k]@.len() >= 1,
        encoded_form(out@, views_of(final(macros)@)).len() <= s@.len(),
        (forall|c: (usize, usize)| #[trigger] candidate_ok(s@, c) ==> reduction(s@, c) <= 0)
            ==> out@ == s@ && final(macros)@.len() == 0,
        (exists|c: (usize, usize)| #[trigger] candidate_ok(s@, c) && reduction(s@, c) > 0)
            ==> encoded_form(out@, views_of(final(macros)@)).len() < s@.len(),
        plain_text(s@) ==> expand(out@, views_of(final(macros)@)) == s@ && (forall|i: int|
            0 <= i < out@.len() ==> (#[trigger] out@[i]) != ';') && refs_bounded(
            out@,
            final(macros)@.len() as int,
        ),
{
    let mut cur = copy_range(s, 0, s.len());
    proof {
        assert(cur@ =~= s@);
        assert(views_of(macros@) =~~= Seq::<Seq<char>>::empty());
        assert(encoded_form(cur@, views_of(macros@)) =~= s@);
        if plain_text(s@) {
            assert(forall|i: int| 0 <= i < cur@.len() ==> !is_digit_sym(#[trigger] cur@[i]));
            lemma_expand_no_digits(cur@, views_of(macros@));
        }
    }
    let mut done = false;
    while !done && macros.len() < MACRO_CAP
        invariant
            macros@.len() <= MACRO_CAP,
            forall|k: int|
                0 <= k < macros@.len() ==> letters_only((#[trigger] macros@[k])@)
                    && macros@[k]@.len() >= 1,
            encoded_form(cur@, views_of(macros@)).len() <= s@.len(),
            macros@.len() == 0 ==> cur@ == s@,
            macros@.len() > 0 ==> encoded_form(cur@, views_of(macros@)).len() < s@.len(),
            macros@.len() > 0 ==> (exists|c: (usize, usize)|
                #[trigger] candidate_ok(s@, c) && reduction(s@, c) > 0),
            done && macros@.len() == 0 ==> (forall|c: (usize, usize)|
                #[trigger] candidate_ok(s@, c) ==> reduction(s@, c) <= 0),
            plain_text(s@) ==> expand(cur@, views_of(macros@)) == s@ && (forall|i: int|
                0 <= i < cur@.len() ==> (#[trigger] cur@[i]) != ';') && refs_bounded(
                cur@,
                macros@.len() as int,
            ),
        decreases (if done {
            0int
        } else {
            1int
        }) + MACRO_CAP - macros@.len(),
    {
        let cands = find_substrings(&cur);
        let ghost cands_view = cands@;
        match sort_substring(&cur, &cands) {
            None => {
                done = true;
                proof {
                    if macros@.len() == 0 {
                        assert forall|c: (usize, usize)|
                            #[trigger] candidate_ok(s@, c) implies reduction(s@, c) <= 0 by {
                            assert(cur@ == s@);
                            let sti = c.0 as int;
                            let mi = c.1 as int;
                            assert(letters_only(s@.subrange(sti, sti + mi)));
                            assert(cands_view.contains((sti as usize, mi as usize)));
                            assert((sti as usize, mi as usize) == c);
                            let w = choose|w: int|
                                0 <= w < cands_view.len() && cands_view[w] == c;
                            assert(reduction(cur@, cands_view[w]) <= 0);
                        }
                    }
                }
            },
            Some((st, m)) => {
                let ghost t = cur@;
                let ghost defs = views_of(macros@);
                let pat = copy_range(&cur, st, m);
                let repc = ref_char(macros.len() + 1);
                let newcur = subst_x(&cur, &pat, repc);
                proof {
                    let n = macros@.len() as int;
                    lemma_ref_sym_code(n + 1);
                    lemma_subst_len(t, pat@, repc);
                    lemma_join_tail_push(defs, pat@);
                    assert(views_of(macros@.push(pat)) =~~= defs.push(pat@));
                    // length accounting: the substitution saves more than
                    // the new definition costs
                    assert(reduction(t, (st, m)) > 0);
                    assert(count_occ(t, pat@) * (pat@.len() - 1) > m + 1);
                    assert(encoded_form(newcur@, defs.push(pat@)).len() < encoded_form(
                        t,
                        defs,
                    ).len());
                    if macros@.len() == 0 {
                        assert(t == s@);
                        assert(candidate_ok(s@, (st, m)) && reduction(s@, (st, m)) > 0);
                    }
                    if plain_text(s@) {
                        assert(forall|i: int|
                            0 <= i < t.len() ==> (#[trigger] t[i]) as u32 != 49 + defs.len())
                            by {
                            assert(forall|i: int|
                                0 <= i < t.len() && (#[trigger] t[i]) as u32 == 49 + n
                                    ==> is_digit_sym(t[i]));
                        }
                        lemma_expand_subst(t, pat@, defs);
                        lemma_subst_chars(t, pat@, repc);
                        assert forall|i: int| 0 <= i < newcur@.len() implies (
                        #[trigger] newcur@[i]) != ';' by {
                            if newcur@[i] != repc {
                                let w = choose|w: int| 0 <= w < t.len() && t[w] == newcur@[i];
                            }
                        }
                        assert(refs_bounded(newcur@, n + 1)) by {
                            assert forall|i: int|
                                0 <= i < newcur@.len() && is_digit_sym(
                                    #[trigger] newcur@[i],
                                ) implies 49 <= newcur@[i] as u32 <= 48 + n + 1 by {
                                if newcur@[i] != repc {
                                    let w = choose|w: int|
                                        0 <= w < t.len() && t[w] == newcur@[i];
                                }
                            }
                        }
                    }
                }
                macros.push(pat);
                cur = newcur;
            },
        }
    }
    proof {
        if forall|c: (usize, usize)| #[trigger] candidate_ok(s@, c) ==> reduction(s@, c) <= 0 {
            if macros@.len() > 0 {
                let c0 = choose|c: (usize, usize)|
                    #[trigger] candidate_ok(s@, c) && reduction(s@, c) > 0;
                assert(false);
            }
        }
        if exists|c: (usize, usize)| #[trigger] candidate_ok(s@, c) && reduction(s@, c) > 0 {
            if macros@.len() == 0 {
                let c0 = choose|c: (usize, usize)|
                    #[trigger] candidate_ok(s@, c) && reduction(s@, c) > 0;
                assert(candidate_ok(s@, c0) && reduction(s@, c0) <= 0);
                assert(false);
            }
        }
    }
    cur
}

/// The encoded form as one string: the rewritten text, then each macro
/// definition preceded by `;`.
fn stringify(main: &Vec<char>, macros: &Vec<Vec<char>>) -> (r: String)
    ensures
        r@ == encoded_form(main@, views_of(macros@)),
{
    let mut out = from_chars(main);
    let n = macros.len();
    proof {
        assert(views_of(macros@.subrange(0, 0)) =~~= Seq::<Seq<char>>::empty());
        assert(out@ =~= encoded_form(main@, views_of(macros@.subrange(0, 0))));
    }
    for k in 0..n
        invariant
            n == macros@.len(),
            out@ == encoded_form(main@, views_of(macros@.subrange(0, k as int))),
    {
        string_push(&mut out, ';');
        let mstr = from_chars(&macros[k]);
        out.append(mstr.as_str());
        proof {
            let pre = views_of(macros@.subrange(0, k as int));
            lemma_join_tail_push(pre, macros@[k as int]@);
            assert(views_of(macros@.subrange(0, k + 1)) =~~= pre.push(macros@[k as int]@));
            assert(out@ =~= encoded_form(main@, views_of(macros@.subrange(0, k + 1))));
        }
    }
    proof {
        assert(macros@.subrange(0, n as int) =~= macros@);
    }
    out
}

/// Encodes a move string by greedy macro substitution.  The result never
/// exceeds the input in length; it shrinks strictly whenever some
/// alphabetic window's substitution pays for its definition, and is the
/// input verbatim when none does.  For a plain input (no digits, no `;`
/// — every move string is plain) decoding the result — splitting off the
/// `;`-joined definitions and expanding every digit reference — restores
/// the input exactly; at most `MACRO_CAP` definitions are emitted and
/// every digit in the rewritten part references one of them.
pub fn encode_actions(s: &str) -> (r: String)
    ensures
        r@.len() <= s@.len(),
        (forall|c: (usize, usize)| #[trigger] candidate_ok(s@, c) ==> reduction(s@, c) <= 0)
            ==> r@ == s@,
        (exists|c: (usize, usize)| #[trigger] candidate_ok(s@, c) && reduction(s@, c) > 0)
            ==> r@.len() < s@.len(),
        plain_text(s@) ==> decode_moves(r@) == s@,
        plain_text(s@) ==> split_parts(r@).len() <= MACRO_CAP + 1 && refs_bounded(
            split_parts(r@)[0],
            split_parts(r@).len() - 1,
        ),
{
    let chars = to_chars(s);
    let mut macros: Vec<Vec<char>> = Vec::new();
    let out = compress_string(&chars, &mut macros);
    let r = stringify(&out, &macros);
    proof {
        let defs = views_of(macros@);
        if forall|c: (usize, usize)| #[trigger] candidate_ok(s@, c) ==> reduction(s@, c) <= 0 {
            assert(out@ == s@ && macros@.len() == 0);
            assert(views_of(macros@) =~~= Seq::<Seq<char>>::empty());
            assert(r@ =~= s@);
        }
        if plain_text(s@) {
            assert(forall|k: int, i: int|
                0 <= k < defs.len() && 0 <= i < defs[k].len() ==> (#[trigger] defs[k][i])
                    != ';') by {
                assert(forall|k: int, i: int|
                    0 <= k < defs.len() && 0 <= i < defs[k].len() ==> is_letter(
                        #[trigger] defs[k][i],
                    ));
            }
            lemma_split_encoded(out@, defs);
            assert((seq![out@] + defs)[0] == out@);
            assert((seq![out@] + defs).drop_first() =~~= defs);
            assert(split_parts(r@).len() == 1 + defs.len());
        }
    }
    r
}

} // verus!

