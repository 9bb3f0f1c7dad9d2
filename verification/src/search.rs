//! The decomposition search: walks the trie in lock-step with a digit string
//! and collects every complete segmentation of the digits into stored words,
//! space-separated. Deferred work is held as explicit frames on a stack, so
//! exploration is plain iteration with no recursion depth to worry about.

use crate::keypad::digit_of;
use crate::keypad::lemma_letter_group;
use crate::keypad::lemma_t9_letter;
use crate::keypad::t9_letters;
use crate::keypad::t9_spec;
use crate::trie::Trie;
use vstd::prelude::*;

verus! {

/// The digit string an emitted result stands for: each letter mapped back to
/// its keypad digit, the space separators dropped.
pub open spec fn mapped_digits(s: Seq<char>) -> Seq<char>
    decreases s.len(),
{
    if s.len() == 0 {
        Seq::empty()
    } else if s.last() == ' ' {
        mapped_digits(s.drop_last())
    } else {
        mapped_digits(s.drop_last()).push(digit_of(s.last()))
    }
}

/// Whether `s` is one or more words of the trie joined by single spaces.
pub open spec fn joined(t: Trie, s: Seq<char>) -> bool
    decreases s.len(),
{
    ||| t.words().contains(s)
    ||| exists|k: int|
        0 <= k < s.len() && s[k] == ' ' && joined(t, #[trigger] s.take(k)) && t.words().contains(
            s.subrange(k + 1, s.len() as int),
        )
}

/// A sound unit of pending work: `s` is the output accumulated so far, `id`
/// the trie node the letters since the last space have walked to, `d` how
/// many digits are consumed. The consumed digits are exactly the mapped form
/// of `s`, and everything in `s` before the word in progress is already a
/// space-joined sequence of stored words.
pub open spec fn frame_ok(t: Trie, digits: Seq<char>, s: Seq<char>, id: int, d: int) -> bool {
    &&& t.valid_id(id)
    &&& 0 <= d <= digits.len()
    &&& mapped_digits(s) == digits.take(d)
    &&& (s == t.paths@[id] || exists|k: int|
        0 <= k < s.len() && s[k] == ' ' && joined(t, #[trigger] s.take(k)) && t.paths@[id]
            == s.subrange(k + 1, s.len() as int))
}

/// Appending one character extends the mapped digits accordingly: a space
/// maps to nothing, a letter to its digit.
proof fn lemma_mapped_push(s: Seq<char>, c: char)
    ensures
        c == ' ' ==> mapped_digits(s.push(c)) == mapped_digits(s),
        c != ' ' ==> mapped_digits(s.push(c)) == mapped_digits(s).push(digit_of(c)),
{
    assert(s.push(c).drop_last() =~= s);
    assert(s.push(c).last() == c);
}

/// The word in progress of a sound frame is a word of the trie wherever the
/// frame's node is terminal, so the whole accumulated output is a space-
/// joined sequence of stored words.
proof fn lemma_frame_joined(t: Trie, digits: Seq<char>, s: Seq<char>, id: int, d: int)
    requires
        t.wf(),
        frame_ok(t, digits, s, id, d),
        t.terminal_at(id),
    ensures
        joined(t, s),
{
    assert(t.walk(0, t.paths@[id]) == Some(id));
    assert(t.accepts(t.paths@[id]));
    t.lemma_words_contains(t.paths@[id]);
    if s == t.paths@[id] {
        assert(t.words().contains(s));
    } else {
        let k = choose|k: int|
            0 <= k < s.len() && s[k] == ' ' && joined(t, #[trigger] s.take(k)) && t.paths@[id]
                == s.subrange(k + 1, s.len() as int);
        assert(t.words().contains(s.subrange(k + 1, s.len() as int)));
    }
}

/// A frame whose digits are exhausted at a terminal node carries a complete
/// decomposition: a space-joined word sequence mapping back to the digits.
proof fn lemma_emit(t: Trie, digits: Seq<char>, s: Seq<char>, id: int)
    requires
        t.wf(),
        frame_ok(t, digits, s, id, digits.len() as int),
        t.terminal_at(id),
    ensures
        joined(t, s),
        mapped_digits(s) == digits,
{
    lemma_frame_joined(t, digits, s, id, digits.len() as int);
    assert(digits.take(digits.len() as int) =~= digits);
}

/// Continuing the word in progress along an edge keeps a frame sound.
proof fn lemma_frame_extend(
    t: Trie,
    digits: Seq<char>,
    s: Seq<char>,
    id: int,
    d: int,
    letter: char,
    nxt: int,
)
    requires
        t.wf(),
        frame_ok(t, digits, s, id, d),
        d < digits.len(),
        '0' <= digits[d] <= '9',
        t9_spec(digits[d]).contains(letter),
        t.step(id, letter) == Some(nxt),
    ensures
        frame_ok(t, digits, s.push(letter), nxt, d + 1),
{
    t.lemma_step_path(id, letter, nxt);
    lemma_t9_letter(digits[d], letter);
    lemma_mapped_push(s, letter);
    assert(digits.take(d).push(digits[d]) =~= digits.take(d + 1));
    let s2 = s.push(letter);
    if s == t.paths@[id] {
        assert(s2 == t.paths@[nxt]);
    } else {
        let k = choose|k: int|
            0 <= k < s.len() && s[k] == ' ' && joined(t, #[trigger] s.take(k)) && t.paths@[id]
                == s.subrange(k + 1, s.len() as int);
        assert(s2.take(k) =~= s.take(k));
        assert(s2[k] == ' ');
        assert(s.subrange(k + 1, s.len() as int).push(letter) =~= s2.subrange(
            k + 1,
            s2.len() as int,
        ));
        assert(t.paths@[nxt] == s2.subrange(k + 1, s2.len() as int));
        assert(joined(t, s2.take(k)));
    }
}

/// Closing the word in progress at a terminal node and starting a fresh word
/// from the root keeps a frame sound.
proof fn lemma_frame_break(
    t: Trie,
    digits: Seq<char>,
    s: Seq<char>,
    id: int,
    d: int,
    letter: char,
    nxt: int,
)
    requires
        t.wf(),
        frame_ok(t, digits, s, id, d),
        d < digits.len(),
        '0' <= digits[d] <= '9',
        t9_spec(digits[d]).contains(letter),
        t.terminal_at(id),
        t.step(0, letter) == Some(nxt),
    ensures
        frame_ok(t, digits, s.push(' ').push(letter), nxt, d + 1),
{
    t.lemma_step_path(0, letter, nxt);
    lemma_t9_letter(digits[d], letter);
    lemma_mapped_push(s, ' ');
    lemma_mapped_push(s.push(' '), letter);
    assert(digits.take(d).push(digits[d]) =~= digits.take(d + 1));
    lemma_frame_joined(t, digits, s, id, d);
    let s2 = s.push(' ').push(letter);
    let kb: int = s.len() as int;
    assert(s2[kb] == ' ');
    assert(s2.take(kb) =~= s);
    assert(s2.subrange(kb + 1, s2.len() as int) =~= Seq::<char>::empty().push(letter));
    assert(t.paths@[nxt] == s2.subrange(kb + 1, s2.len() as int));
    assert(joined(t, s2.take(kb)));
}

/// Nine to the `e`: one more than the eight successor frames a digit can
/// spawn, the base of the search's termination measure.
spec fn pow9(e: nat) -> nat
    decreases e,
{
    if e == 0 {
        1
    } else {
        9 * pow9((e - 1) as nat)
    }
}

proof fn lemma_pow9_pos(e: nat)
    ensures
        pow9(e) >= 1,
    decreases e,
{
    if e > 0 {
        lemma_pow9_pos((e - 1) as nat);
    }
}

/// How much exploration one frame may still spawn: its share of the
/// termination measure.
spec fn frame_weight(n: int, d: int) -> nat {
    if 0 <= n - d {
        pow9((n - d) as nat)
    } else {
        1
    }
}

/// The termination measure of the search: the total weight of the frames
/// still pending.
spec fn stack_measure(s: Seq<(Vec<char>, usize, usize)>, n: int) -> nat
    decreases s.len(),
{
    if s.len() == 0 {
        0
    } else {
        stack_measure(s.drop_last(), n) + frame_weight(n, s.last().2 as int)
    }
}

proof fn lemma_measure_push(s: Seq<(Vec<char>, usize, usize)>, x: (Vec<char>, usize, usize), n: int)
    ensures
        stack_measure(s.push(x), n) == stack_measure(s, n) + frame_weight(n, x.2 as int),
{
    assert(s.push(x).drop_last() =~= s);
    assert(s.push(x).last() == x);
}

/// A copy of a character vector, element for element.
fn clone_chars(cs: &Vec<char>) -> (r: Vec<char>)
    ensures
        r@ == cs@,
{
    let mut r: Vec<char> = Vec::new();
    let mut i: usize = 0;
    while i < cs.len()
        invariant
            i <= cs@.len(),
            r@ == cs@.take(i as int),
        decreases cs@.len() - i,
    {
        r.push(cs[i]);
        proof {
            assert(cs@.take(i as int).push(cs@[i as int]) =~= cs@.take(i + 1));
        }
        i += 1;
    }
    proof {
        assert(cs@.take(cs@.len() as int) =~= cs@);
    }
    r
}

/// Relies on String's FromIterator over char: collecting characters yields
/// the string holding exactly those characters in order.
#[verifier::external_body]
fn chars_to_string(cs: &Vec<char>) -> (r: String)
    ensures
        r@ == cs@,
{
    cs.iter().collect()
}

/// The search relation, read off the output string itself: from accumulated
/// output `s` at node `id` with `d` digits consumed, the search can go on to
/// deliver exactly `out`. The next character of `out` dictates the move: a
/// space closes the current word at a terminal node and the following letter
/// starts a new word from the root; a letter continues the current word
/// along an edge. Either way the letter must belong to the current digit's
/// keypad group.
pub open spec fn reaches(
    t: Trie,
    digits: Seq<char>,
    s: Seq<char>,
    id: int,
    d: int,
    out: Seq<char>,
) -> bool
    decreases out.len() - s.len(),
{
    if d >= digits.len() {
        out == s && t.terminal_at(id)
    } else if out.len() <= s.len() {
        false
    } else if out[s.len() as int] == ' ' {
        out.len() > s.len() + 1 && t.terminal_at(id) && {
            let letter = out[s.len() as int + 1];
            t9_spec(digits[d]).contains(letter) && match t.step(0, letter) {
                Some(j) => reaches(t, digits, s.push(' ').push(letter), j, d + 1, out),
                None => false,
            }
        }
    } else {
        let letter = out[s.len() as int];
        t9_spec(digits[d]).contains(letter) && match t.step(id, letter) {
            Some(j) => reaches(t, digits, s.push(letter), j, d + 1, out),
            None => false,
        }
    }
}

/// The keypad letter the next move towards `out` takes, once `s` has been
/// accumulated: the next character of `out`, skipping a word-break space.
spec fn action_letter(s: Seq<char>, out: Seq<char>) -> char {
    if s.len() < out.len() && out[s.len() as int] == ' ' {
        if s.len() + 1 < out.len() {
            out[s.len() as int + 1]
        } else {
            ' '
        }
    } else if s.len() < out.len() {
        out[s.len() as int]
    } else {
        ' '
    }
}

/// Eliminating `reaches` once the digits are exhausted: the output is the
/// accumulated string, and the node is terminal.
proof fn lemma_reaches_base(
    t: Trie,
    digits: Seq<char>,
    s: Seq<char>,
    id: int,
    d: int,
    out: Seq<char>,
)
    requires
        d >= digits.len(),
        reaches(t, digits, s, id, d, out),
    ensures
        out == s,
        t.terminal_at(id),
{
}

/// Eliminating `reaches` while digits remain: the move the output dictates
/// is legal, and the search relation persists through it.
proof fn lemma_reaches_step(
    t: Trie,
    digits: Seq<char>,
    s: Seq<char>,
    id: int,
    d: int,
    out: Seq<char>,
)
    requires
        0 <= d < digits.len(),
        reaches(t, digits, s, id, d, out),
    ensures
        out.len() > s.len(),
        t9_spec(digits[d]).contains(action_letter(s, out)),
        out[s.len() as int] == ' ' ==> t.terminal_at(id) && out.len() > s.len() + 1
            && match t.step(0, action_letter(s, out)) {
            Some(j) => reaches(t, digits, s.push(' ').push(action_letter(s, out)), j, d + 1, out),
            None => false,
        },
        out[s.len() as int] != ' ' ==> match t.step(id, action_letter(s, out)) {
            Some(j) => reaches(t, digits, s.push(action_letter(s, out)), j, d + 1, out),
            None => false,
        },
{
}

/// `out` is accounted for: already delivered among the results, or still
/// deliverable from a pending frame.
spec fn covered(
    t: Trie,
    digits: Seq<char>,
    results: Seq<Vec<char>>,
    pending: Seq<(Vec<char>, usize, usize)>,
    out: Seq<char>,
) -> bool {
    ||| exists|j: int| 0 <= j < results.len() && (#[trigger] results[j])@ == out
    ||| exists|fi: int|
        0 <= fi < pending.len() && reaches(
            t,
            digits,
            (#[trigger] pending[fi]).0@,
            pending[fi].1 as int,
            pending[fi].2 as int,
            out,
        )
}

/// Mapping to digits distributes over concatenation.
proof fn lemma_mapped_append(x: Seq<char>, y: Seq<char>)
    ensures
        mapped_digits(x + y) == mapped_digits(x) + mapped_digits(y),
    decreases y.len(),
{
    if y.len() == 0 {
        assert(x + y =~= x);
        assert(mapped_digits(x) + mapped_digits(y) =~= mapped_digits(x));
    } else {
        assert((x + y).drop_last() =~= x + y.drop_last());
        assert((x + y).last() == y.last());
        lemma_mapped_append(x, y.drop_last());
        if y.last() == ' ' {
            assert(mapped_digits(y) == mapped_digits(y.drop_last()));
        } else {
            assert(mapped_digits(y) == mapped_digits(y.drop_last()).push(digit_of(y.last())));
            assert(mapped_digits(x) + mapped_digits(y.drop_last()).push(digit_of(y.last())) =~= (
            mapped_digits(x) + mapped_digits(y.drop_last())).push(digit_of(y.last())));
        }
    }
}

/// A space-free string maps digit for letter, position for position.
proof fn lemma_mapped_nospace(u: Seq<char>)
    requires
        forall|i: int| 0 <= i < u.len() ==> #[trigger] u[i] != ' ',
    ensures
        mapped_digits(u).len() == u.len(),
        forall|i: int| 0 <= i < u.len() ==> mapped_digits(u)[i] == digit_of(#[trigger] u[i]),
    decreases u.len(),
{
    if u.len() > 0 {
        assert(forall|i: int| 0 <= i < u.len() - 1 ==> #[trigger] u.drop_last()[i] == u[i]);
        lemma_mapped_nospace(u.drop_last());
        assert(u.last() != ' ');
        assert forall|i: int| 0 <= i < u.len() implies mapped_digits(u)[i] == digit_of(
            #[trigger] u[i],
        ) by {
            if i < u.len() - 1 {
                assert(u.drop_last()[i] == u[i]);
            }
        }
    }
}

/// Eliminating `joined` when the whole output is no single stored word: it
/// splits at some space into a shorter joined prefix and a final stored word.
proof fn lemma_joined_unfold(t: Trie, s: Seq<char>)
    requires
        joined(t, s),
        !t.words().contains(s),
    ensures
        exists|k: int|
            0 <= k < s.len() && s[k] == ' ' && joined(t, #[trigger] s.take(k))
                && t.words().contains(s.subrange(k + 1, s.len() as int)),
{
}

/// A stored word of keypad letters is delivered letter by letter by the
/// search relation, from any split point onward.
proof fn lemma_word_run(
    t: Trie,
    digits: Seq<char>,
    prefix: Seq<char>,
    w: Seq<char>,
    m: int,
    dpre: int,
    id: int,
)
    requires
        t.wf(),
        0 <= m <= w.len(),
        0 <= dpre,
        t.accepts(w),
        forall|i: int| 0 <= i < w.len() ==> '2' <= digit_of(#[trigger] w[i]) <= '9',
        digits.len() == dpre + w.len(),
        forall|i: int| 0 <= i < w.len() ==> digits[dpre + i] == digit_of(#[trigger] w[i]),
        t.walk(0, w.take(m)) == Some(id),
    ensures
        reaches(t, digits, prefix + w.take(m), id, dpre + m, prefix + w),
    decreases w.len() - m,
{
    let s_m = prefix + w.take(m);
    let out = prefix + w;
    if m == w.len() {
        assert(w.take(m) =~= w);
        assert(t.walk(0, w) == Some(id));
        assert(t.terminal_at(id));
        assert(out == s_m);
        assert(reaches(t, digits, s_m, id, dpre + m, out));
    } else {
        let c = w[m];
        lemma_letter_group(c);
        assert(out[s_m.len() as int] == c);
        assert(digits[dpre + m] == digit_of(c));
        assert(w.take(m).push(c) =~= w.take(m + 1));
        t.lemma_walk_snoc(0, w.take(m), c);
        assert(w.take(m + 1) + w.skip(m + 1) =~= w);
        t.lemma_walk_append(0, w.take(m + 1), w.skip(m + 1));
        assert(t.walk(0, w) is Some);
        assert(t.walk(0, w.take(m + 1)) is Some);
        match t.step(id, c) {
            Some(j) => {
                assert(t.walk(0, w.take(m + 1)) == Some(j));
                lemma_word_run(t, digits, prefix, w, m + 1, dpre, j);
                assert(prefix + w.take(m + 1) =~= s_m.push(c));
                assert(reaches(t, digits, s_m.push(c), j, dpre + m + 1, out));
                assert(out.len() > s_m.len());
                assert(reaches(t, digits, s_m, id, dpre + m, out));
            }
            None => {
                assert(false);
            }
        }
    }
}

/// Appending one more stored keypad word, after a space, to any output the
/// search relation delivers gives another deliverable output, against the
/// digit string extended by the word's own digits.
proof fn lemma_reaches_extend(
    t: Trie,
    digits1: Seq<char>,
    s: Seq<char>,
    id: int,
    d: int,
    p: Seq<char>,
    w: Seq<char>,
)
    requires
        t.wf(),
        0 <= d <= digits1.len(),
        reaches(t, digits1, s, id, d, p),
        t.accepts(w),
        w.len() > 0,
        forall|i: int| 0 <= i < w.len() ==> '2' <= digit_of(#[trigger] w[i]) <= '9',
    ensures
        reaches(t, digits1 + mapped_digits(w), s, id, d, p + seq![' '] + w),
    decreases p.len() - s.len(),
{
    let digits = digits1 + mapped_digits(w);
    let out = p + seq![' '] + w;
    assert forall|i: int| 0 <= i < w.len() implies #[trigger] w[i] != ' ' by {
        lemma_letter_group(w[i]);
    }
    lemma_mapped_nospace(w);
    assert(digits.len() == digits1.len() + w.len());
    if d >= digits1.len() {
        lemma_reaches_base(t, digits1, s, id, d, p);
        assert(out[s.len() as int] == ' ');
        assert(out.len() > s.len() + 1);
        let c0 = w[0];
        assert(out[s.len() as int + 1] == c0);
        assert(digits[d] == digit_of(c0));
        lemma_letter_group(c0);
        assert(w.take(0) =~= Seq::<char>::empty());
        assert(t.walk(0, w.take(0)) == Some(0int));
        assert(w.take(0).push(c0) =~= w.take(1));
        t.lemma_walk_snoc(0, w.take(0), c0);
        assert(w.take(1) + w.skip(1) =~= w);
        t.lemma_walk_append(0, w.take(1), w.skip(1));
        assert(t.walk(0, w) is Some);
        match t.step(0, c0) {
            Some(j1) => {
                assert(t.walk(0, w.take(1)) == Some(j1));
                lemma_word_run(t, digits, p + seq![' '], w, 1, d, j1);
                assert(p + seq![' '] + w.take(1) =~= s.push(' ').push(c0));
                assert(reaches(t, digits, s.push(' ').push(c0), j1, d + 1, out));
                assert(reaches(t, digits, s, id, d, out));
            }
            None => {
                assert(false);
            }
        }
    } else {
        lemma_reaches_step(t, digits1, s, id, d, p);
        let c = action_letter(s, p);
        assert(out[s.len() as int] == p[s.len() as int]);
        assert(digits[d] == digits1[d]);
        if p[s.len() as int] == ' ' {
            assert(p.len() > s.len() + 1);
            assert(out[s.len() as int + 1] == p[s.len() as int + 1]);
            assert(action_letter(s, out) == c);
            match t.step(0, c) {
                Some(j) => {
                    lemma_reaches_extend(t, digits1, s.push(' ').push(c), j, d + 1, p, w);
                    assert(reaches(t, digits, s.push(' ').push(c), j, d + 1, out));
                    assert(reaches(t, digits, s, id, d, out));
                }
                None => {
                    assert(false);
                }
            }
        } else {
            assert(action_letter(s, out) == c);
            match t.step(id, c) {
                Some(j) => {
                    lemma_reaches_extend(t, digits1, s.push(c), j, d + 1, p, w);
                    assert(reaches(t, digits, s.push(c), j, d + 1, out));
                    assert(reaches(t, digits, s, id, d, out));
                }
                None => {
                    assert(false);
                }
            }
        }
    }
}

/// Every space-joined sequence of stored words whose letters all belong to
/// the keypad is an output the search relation admits, against the
/// sequence's own digit mapping. Together with the contract of
/// `phone_words`, such a decomposition is always among the results.
pub proof fn lemma_decomposition_reached(t: Trie, out: Seq<char>)
    requires
        t.wf(),
        joined(t, out),
        forall|w: Seq<char>|
            #[trigger] t.words().contains(w) ==> w.len() > 0 && (forall|i: int|
                0 <= i < w.len() ==> '2' <= digit_of(#[trigger] w[i]) <= '9'),
    ensures
        reaches(t, mapped_digits(out), Seq::<char>::empty(), 0, 0, out),
    decreases out.len(),
{
    if t.words().contains(out) {
        t.lemma_words_contains(out);
        assert forall|i: int| 0 <= i < out.len() implies #[trigger] out[i] != ' ' by {
            lemma_letter_group(out[i]);
        }
        lemma_mapped_nospace(out);
        assert(out.take(0) =~= Seq::<char>::empty());
        assert(t.walk(0, out.take(0)) == Some(0int));
        lemma_word_run(t, mapped_digits(out), Seq::<char>::empty(), out, 0, 0, 0);
        assert(Seq::<char>::empty() + out.take(0) =~= Seq::<char>::empty());
        assert(Seq::<char>::empty() + out =~= out);
        assert(reaches(t, mapped_digits(out), Seq::<char>::empty(), 0, 0, out));
    } else {
        lemma_joined_unfold(t, out);
        let k = choose|k: int|
            0 <= k < out.len() && out[k] == ' ' && joined(t, #[trigger] out.take(k))
                && t.words().contains(out.subrange(k + 1, out.len() as int));
        let pre = out.take(k);
        let w = out.subrange(k + 1, out.len() as int);
        lemma_decomposition_reached(t, pre);
        t.lemma_words_contains(w);
        assert(w.len() > 0);
        lemma_reaches_extend(t, mapped_digits(pre), Seq::<char>::empty(), 0, 0, pre, w);
        assert(pre + seq![' '] + w =~= out);
        assert(pre + (seq![' '] + w) =~= out);
        lemma_mapped_append(pre, seq![' '] + w);
        lemma_mapped_append(seq![' '], w);
        assert(seq![' '].last() == ' ');
        assert(seq![' '].drop_last() =~= Seq::<char>::empty());
        assert(mapped_digits(Seq::<char>::empty()) =~= Seq::<char>::empty());
        assert(mapped_digits(seq![' ']) =~= Seq::<char>::empty());
        assert(mapped_digits(out) =~= mapped_digits(pre) + mapped_digits(w));
        assert(reaches(t, mapped_digits(out), Seq::<char>::empty(), 0, 0, out));
    }
}

/// The search relation only ever extends the accumulated output: the
/// accumulated string is a prefix of the delivered one.
proof fn lemma_reaches_prefix(
    t: Trie,
    digits: Seq<char>,
    s: Seq<char>,
    id: int,
    d: int,
    out: Seq<char>,
)
    requires
        reaches(t, digits, s, id, d, out),
    ensures
        s.len() <= out.len(),
        s == out.subrange(0, s.len() as int),
    decreases out.len() - s.len(),
{
    if d >= digits.len() {
        assert(s =~= out.subrange(0, s.len() as int));
    } else if out[s.len() as int] == ' ' {
        let letter = out[s.len() as int + 1];
        match t.step(0, letter) {
            Some(j) => {
                lemma_reaches_prefix(t, digits, s.push(' ').push(letter), j, d + 1, out);
                assert(s =~= out.subrange(0, s.len() as int));
            }
            None => {
                assert(false);
            }
        }
    } else {
        let letter = out[s.len() as int];
        match t.step(id, letter) {
            Some(j) => {
                lemma_reaches_prefix(t, digits, s.push(letter), j, d + 1, out);
                assert(s =~= out.subrange(0, s.len() as int));
            }
            None => {
                assert(false);
            }
        }
    }
}

/// Introducing one continue move into the search relation: whatever can be
/// delivered after taking the edge could be delivered before it.
proof fn lemma_reaches_intro_letter(
    t: Trie,
    digits: Seq<char>,
    s: Seq<char>,
    id: int,
    d: int,
    letter: char,
    j: int,
    out: Seq<char>,
)
    requires
        0 <= d < digits.len(),
        letter != ' ',
        t9_spec(digits[d]).contains(letter),
        t.step(id, letter) == Some(j),
        reaches(t, digits, s.push(letter), j, d + 1, out),
    ensures
        reaches(t, digits, s, id, d, out),
{
    lemma_reaches_prefix(t, digits, s.push(letter), j, d + 1, out);
    assert(out.len() > s.len());
    assert(s.push(letter)[s.len() as int] == letter);
    assert(out.subrange(0, s.len() as int + 1)[s.len() as int] == out[s.len() as int]);
    assert(out[s.len() as int] == letter);
    assert(reaches(t, digits, s, id, d, out));
}

/// Introducing one word-break move into the search relation.
proof fn lemma_reaches_intro_break(
    t: Trie,
    digits: Seq<char>,
    s: Seq<char>,
    id: int,
    d: int,
    letter: char,
    j: int,
    out: Seq<char>,
)
    requires
        0 <= d < digits.len(),
        letter != ' ',
        t9_spec(digits[d]).contains(letter),
        t.terminal_at(id),
        t.step(0, letter) == Some(j),
        reaches(t, digits, s.push(' ').push(letter), j, d + 1, out),
    ensures
        reaches(t, digits, s, id, d, out),
{
    lemma_reaches_prefix(t, digits, s.push(' ').push(letter), j, d + 1, out);
    assert(out.len() > s.len() + 1);
    assert(s.push(' ').push(letter)[s.len() as int] == ' ');
    assert(s.push(' ').push(letter)[s.len() as int + 1] == letter);
    assert(out.subrange(0, s.len() as int + 2)[s.len() as int] == out[s.len() as int]);
    assert(out.subrange(0, s.len() as int + 2)[s.len() as int + 1] == out[s.len() as int + 1]);
    assert(out[s.len() as int] == ' ');
    assert(out[s.len() as int + 1] == letter);
    assert(reaches(t, digits, s, id, d, out));
}

/// Whether two character vectors hold the same characters.
fn eq_chars(a: &Vec<char>, b: &Vec<char>) -> (r: bool)
    ensures
        r == (a@ == b@),
{
    if a.len() != b.len() {
        return false;
    }
    let mut i: usize = 0;
    while i < a.len()
        invariant
            a@.len() == b@.len(),
            i <= a@.len(),
            forall|m: int| 0 <= m < i ==> a@[m] == b@[m],
        decreases a@.len() - i,
    {
        if a[i] != b[i] {
            return false;
        }
        i += 1;
    }
    proof {
        assert(a@ =~= b@);
    }
    true
}

/// Whether the collection already holds a string of exactly these
/// characters.
fn contains_chars(outs: &Vec<Vec<char>>, w: &Vec<char>) -> (r: bool)
    ensures
        r == exists|j: int| 0 <= j < outs@.len() && (#[trigger] outs@[j])@ == w@,
{
    let mut j: usize = 0;
    while j < outs.len()
        invariant
            j <= outs@.len(),
            forall|m: int| 0 <= m < j ==> (#[trigger] outs@[m])@ != w@,
        decreases outs@.len() - j,
    {
        if eq_chars(&outs[j], w) {
            return true;
        }
        j += 1;
    }
    false
}

impl Trie {
    /// Enumerates decompositions of `phone_number` into stored words. Every
    /// returned string is one or more words of the index joined by single
    /// spaces, and mapping its letters back to their keypad digits, spaces
    /// dropped, reproduces `phone_number` exactly; the results, with no
    /// string repeated, are exactly the outputs the search relation
    /// `reaches` admits. Order among results is unspecified; no
    /// decomposition found yields an empty vector, not an error.
    pub fn phone_words(&self, phone_number: &str) -> (results: Vec<String>)
        requires
            self.wf(),
            forall|i: int|
                0 <= i < phone_number@.len() ==> '0' <= #[trigger] phone_number@[i] <= '9',
        ensures
            forall|j: int|
                0 <= j < results@.len() ==> joined(*self, (#[trigger] results@[j])@)
                    && mapped_digits(results@[j]@) == phone_number@,
            forall|j: int|
                0 <= j < results@.len() ==> reaches(
                    *self,
                    phone_number@,
                    Seq::<char>::empty(),
                    0,
                    0,
                    (#[trigger] results@[j])@,
                ),
            forall|j1: int, j2: int|
                0 <= j1 < j2 < results@.len() ==> (#[trigger] results@[j1])@ != (
                #[trigger] results@[j2])@,
            forall|out: Seq<char>|
                #[trigger] reaches(*self, phone_number@, Seq::<char>::empty(), 0, 0, out)
                    ==> exists|j: int| 0 <= j < results@.len() && (#[trigger] results@[j])@ == out,
    {
        let ghost digits = phone_number@;
        let n: usize = phone_number.unicode_len();
        let mut outs: Vec<Vec<char>> = Vec::new();
        let mut stack: Vec<(Vec<char>, usize, usize)> = Vec::new();
        let start: Vec<char> = Vec::new();
        proof {
            assert(digits.take(0) =~= Seq::<char>::empty());
            assert(start@ == self.paths@[0]);
            assert(frame_ok(*self, digits, start@, 0, 0));
        }
        stack.push((start, 0, 0));
        proof {
            assert(stack@[0].0@ == Seq::<char>::empty());
            assert forall|out: Seq<char>|
                #[trigger] reaches(*self, digits, Seq::<char>::empty(), 0, 0, out) implies covered(
                *self,
                digits,
                outs@,
                stack@,
                out,
            ) by {
                assert(reaches(
                    *self,
                    digits,
                    stack@[0].0@,
                    stack@[0].1 as int,
                    stack@[0].2 as int,
                    out,
                ));
            }
        }
        while stack.len() > 0
            invariant
                self.wf(),
                n == digits.len(),
                digits == phone_number@,
                forall|i: int| 0 <= i < digits.len() ==> '0' <= #[trigger] digits[i] <= '9',
                forall|fi: int|
                    0 <= fi < stack@.len() ==> frame_ok(
                        *self,
                        digits,
                        (#[trigger] stack@[fi]).0@,
                        stack@[fi].1 as int,
                        stack@[fi].2 as int,
                    ),
                forall|j: int|
                    0 <= j < outs@.len() ==> joined(*self, (#[trigger] outs@[j])@)
                        && mapped_digits(outs@[j]@) == digits,
                forall|j: int|
                    0 <= j < outs@.len() ==> reaches(
                        *self,
                        digits,
                        Seq::<char>::empty(),
                        0,
                        0,
                        (#[trigger] outs@[j])@,
                    ),
                forall|j1: int, j2: int|
                    0 <= j1 < j2 < outs@.len() ==> (#[trigger] outs@[j1])@ != (
                    #[trigger] outs@[j2])@,
                forall|out: Seq<char>|
                    #[trigger] reaches(*self, digits, Seq::<char>::empty(), 0, 0, out)
                        ==> covered(*self, digits, outs@, stack@, out),
                forall|fi: int, out: Seq<char>|
                    0 <= fi < stack@.len() && #[trigger] reaches(
                        *self,
                        digits,
                        stack@[fi].0@,
                        stack@[fi].1 as int,
                        stack@[fi].2 as int,
                        out,
                    ) ==> reaches(*self, digits, Seq::<char>::empty(), 0, 0, out),
            decreases stack_measure(stack@, n as int),
        {
            let ghost stack0 = stack@;
            let ghost outs0 = outs@;
            let ghost m0 = stack_measure(stack0, n as int);
            let frame = stack.pop().unwrap();
            proof {
                assert(stack0[stack0.len() - 1] == frame);
                assert(frame_ok(*self, digits, frame.0@, frame.1 as int, frame.2 as int));
                assert(stack@ =~= stack0.drop_last());
                assert(m0 == stack_measure(stack@, n as int) + frame_weight(
                    n as int,
                    frame.2 as int,
                ));
                lemma_pow9_pos((n - frame.2) as nat);
                // completions of the popped frame are completions of the search
                assert forall|out: Seq<char>|
                    #[trigger] reaches(*self, digits, frame.0@, frame.1 as int, frame.2 as int, out)
                        implies reaches(*self, digits, Seq::<char>::empty(), 0, 0, out) by {
                    assert(reaches(
                        *self,
                        digits,
                        stack0[stack0.len() - 1].0@,
                        stack0[stack0.len() - 1].1 as int,
                        stack0[stack0.len() - 1].2 as int,
                        out,
                    ));
                }
                // the remaining frames keep their closure property
                assert forall|fi: int, out: Seq<char>|
                    0 <= fi < stack@.len() && #[trigger] reaches(
                        *self,
                        digits,
                        stack@[fi].0@,
                        stack@[fi].1 as int,
                        stack@[fi].2 as int,
                        out,
                    ) implies reaches(*self, digits, Seq::<char>::empty(), 0, 0, out) by {
                    assert(stack@[fi] == stack0[fi]);
                }
            }
            if frame.2 == n {
                if self.is_terminal(frame.1) {
                    proof {
                        lemma_emit(*self, digits, frame.0@, frame.1 as int);
                        // the popped frame delivers its own accumulated string
                        assert(reaches(
                            *self,
                            digits,
                            frame.0@,
                            frame.1 as int,
                            frame.2 as int,
                            frame.0@,
                        ));
                        assert(reaches(*self, digits, Seq::<char>::empty(), 0, 0, frame.0@));
                    }
                    if !contains_chars(&outs, &frame.0) {
                        let copy = clone_chars(&frame.0);
                        outs.push(copy);
                        proof {
                            assert(outs@[outs0.len() as int]@ == frame.0@);
                            assert forall|out: Seq<char>|
                                #[trigger] reaches(*self, digits, Seq::<char>::empty(), 0, 0, out)
                                    implies covered(*self, digits, outs@, stack@, out) by {
                                assert(covered(*self, digits, outs0, stack0, out));
                                if exists|j: int|
                                    0 <= j < outs0.len() && (#[trigger] outs0[j])@ == out {
                                    let j = choose|j: int|
                                        0 <= j < outs0.len() && (#[trigger] outs0[j])@ == out;
                                    assert(outs@[j]@ == out);
                                } else {
                                    let fi = choose|fi: int|
                                        0 <= fi < stack0.len() && reaches(
                                            *self,
                                            digits,
                                            (#[trigger] stack0[fi]).0@,
                                            stack0[fi].1 as int,
                                            stack0[fi].2 as int,
                                            out,
                                        );
                                    if fi < stack0.len() - 1 {
                                        assert(stack@[fi] == stack0[fi]);
                                    } else {
                                        lemma_reaches_base(
                                            *self,
                                            digits,
                                            frame.0@,
                                            frame.1 as int,
                                            frame.2 as int,
                                            out,
                                        );
                                        assert(outs@[outs0.len() as int]@ == out);
                                    }
                                }
                            }
                        }
                    } else {
                        proof {
                            assert forall|out: Seq<char>|
                                #[trigger] reaches(*self, digits, Seq::<char>::empty(), 0, 0, out)
                                    implies covered(*self, digits, outs@, stack@, out) by {
                                assert(covered(*self, digits, outs0, stack0, out));
                                if exists|j: int|
                                    0 <= j < outs0.len() && (#[trigger] outs0[j])@ == out {
                                } else {
                                    let fi = choose|fi: int|
                                        0 <= fi < stack0.len() && reaches(
                                            *self,
                                            digits,
                                            (#[trigger] stack0[fi]).0@,
                                            stack0[fi].1 as int,
                                            stack0[fi].2 as int,
                                            out,
                                        );
                                    if fi < stack0.len() - 1 {
                                        assert(stack@[fi] == stack0[fi]);
                                    } else {
                                        lemma_reaches_base(
                                            *self,
                                            digits,
                                            frame.0@,
                                            frame.1 as int,
                                            frame.2 as int,
                                            out,
                                        );
                                        assert(exists|j: int|
                                            0 <= j < outs@.len() && (#[trigger] outs@[j])@
                                                == out);
                                    }
                                }
                            }
                        }
                    }
                } else {
                    proof {
                        assert forall|out: Seq<char>|
                            #[trigger] reaches(*self, digits, Seq::<char>::empty(), 0, 0, out)
                                implies covered(*self, digits, outs@, stack@, out) by {
                            assert(covered(*self, digits, outs0, stack0, out));
                            if exists|j: int|
                                0 <= j < outs0.len() && (#[trigger] outs0[j])@ == out {
                            } else {
                                let fi = choose|fi: int|
                                    0 <= fi < stack0.len() && reaches(
                                        *self,
                                        digits,
                                        (#[trigger] stack0[fi]).0@,
                                        stack0[fi].1 as int,
                                        stack0[fi].2 as int,
                                        out,
                                    );
                                if fi < stack0.len() - 1 {
                                    assert(stack@[fi] == stack0[fi]);
                                } else {
                                    lemma_reaches_base(
                                        *self,
                                        digits,
                                        frame.0@,
                                        frame.1 as int,
                                        frame.2 as int,
                                        out,
                                    );
                                    assert(false);
                                }
                            }
                        }
                    }
                }
            } else {
                let digit = phone_number.get_char(frame.2);
                let letters = t9_letters(digit);
                let boundary = self.is_terminal(frame.1);
                let dnext: usize = frame.2 + 1;
                let ghost base: nat = stack_measure(stack@, n as int);
                let ghost pw: nat = pow9((n - frame.2 - 1) as nat);
                proof {
                    assert(frame_weight(n as int, frame.2 as int) == 9 * pw);
                    lemma_pow9_pos((n - frame.2 - 1) as nat);
                    assert(letters@.len() <= 4);
                    // hand the popped frame's completions to the letter loop
                    assert forall|out: Seq<char>|
                        #[trigger] reaches(*self, digits, Seq::<char>::empty(), 0, 0, out)
                            implies covered(*self, digits, outs@, stack@, out) || (exists|
                        li2: int,
                    |
                        0 <= li2 < t9_spec(digit).len() && #[trigger] t9_spec(digit)[li2]
                            == action_letter(frame.0@, out) && reaches(
                            *self,
                            digits,
                            frame.0@,
                            frame.1 as int,
                            frame.2 as int,
                            out,
                        )) by {
                        assert(covered(*self, digits, outs0, stack0, out));
                        if exists|j: int| 0 <= j < outs0.len() && (#[trigger] outs0[j])@ == out {
                        } else {
                            let fi = choose|fi: int|
                                0 <= fi < stack0.len() && reaches(
                                    *self,
                                    digits,
                                    (#[trigger] stack0[fi]).0@,
                                    stack0[fi].1 as int,
                                    stack0[fi].2 as int,
                                    out,
                                );
                            if fi < stack0.len() - 1 {
                                assert(stack@[fi] == stack0[fi]);
                            } else {
                                lemma_reaches_step(
                                    *self,
                                    digits,
                                    frame.0@,
                                    frame.1 as int,
                                    frame.2 as int,
                                    out,
                                );
                                assert(t9_spec(digit).contains(action_letter(frame.0@, out)));
                                let li2 = choose|li2: int|
                                    0 <= li2 < t9_spec(digit).len() && t9_spec(digit)[li2]
                                        == action_letter(frame.0@, out);
                                assert(t9_spec(digit)[li2] == action_letter(frame.0@, out));
                            }
                        }
                    }
                }
                let mut li: usize = 0;
                while li < letters.len()
                    invariant
                        self.wf(),
                        n == digits.len(),
                        digits == phone_number@,
                        forall|i: int|
                            0 <= i < digits.len() ==> '0' <= #[trigger] digits[i] <= '9',
                        frame.2 < n,
                        dnext == frame.2 + 1,
                        digit == digits[frame.2 as int],
                        letters@ == t9_spec(digit),
                        li <= letters@.len(),
                        frame_ok(*self, digits, frame.0@, frame.1 as int, frame.2 as int),
                        boundary == self.terminal_at(frame.1 as int),
                        forall|fi: int|
                            0 <= fi < stack@.len() ==> frame_ok(
                                *self,
                                digits,
                                (#[trigger] stack@[fi]).0@,
                                stack@[fi].1 as int,
                                stack@[fi].2 as int,
                            ),
                        forall|j: int|
                            0 <= j < outs@.len() ==> joined(*self, (#[trigger] outs@[j])@)
                                && mapped_digits(outs@[j]@) == digits,
                        forall|j: int|
                            0 <= j < outs@.len() ==> reaches(
                                *self,
                                digits,
                                Seq::<char>::empty(),
                                0,
                                0,
                                (#[trigger] outs@[j])@,
                            ),
                        forall|j1: int, j2: int|
                            0 <= j1 < j2 < outs@.len() ==> (#[trigger] outs@[j1])@ != (
                            #[trigger] outs@[j2])@,
                        outs@ == outs0,
                        forall|out: Seq<char>|
                            #[trigger] reaches(*self, digits, frame.0@, frame.1 as int, frame.2 as int, out)
                                ==> reaches(*self, digits, Seq::<char>::empty(), 0, 0, out),
                        forall|fi: int, out: Seq<char>|
                            0 <= fi < stack@.len() && #[trigger] reaches(
                                *self,
                                digits,
                                stack@[fi].0@,
                                stack@[fi].1 as int,
                                stack@[fi].2 as int,
                                out,
                            ) ==> reaches(*self, digits, Seq::<char>::empty(), 0, 0, out),
                        forall|out: Seq<char>|
                            #[trigger] reaches(*self, digits, Seq::<char>::empty(), 0, 0, out)
                                ==> covered(*self, digits, outs@, stack@, out) || (exists|
                            li2: int,
                        |
                            li <= li2 < t9_spec(digit).len() && #[trigger] t9_spec(digit)[li2]
                                == action_letter(frame.0@, out) && reaches(
                                *self,
                                digits,
                                frame.0@,
                                frame.1 as int,
                                frame.2 as int,
                                out,
                            )),
                        pw == pow9((n - frame.2 - 1) as nat),
                        pw >= 1,
                        stack_measure(stack@, n as int) <= base + 2 * (li as nat) * pw,
                    decreases letters@.len() - li,
                {
                    let letter = letters[li];
                    let ghost stack_h = stack@;
                    proof {
                        assert(t9_spec(digit)[li as int] == letter);
                        assert(t9_spec(digit).contains(letter));
                        lemma_t9_letter(digit, letter);
                    }
                    let cont = self.next_node(frame.1, letter);
                    match cont {
                        Some(nxt) => {
                            let mut grown = clone_chars(&frame.0);
                            grown.push(letter);
                            proof {
                                lemma_frame_extend(
                                    *self,
                                    digits,
                                    frame.0@,
                                    frame.1 as int,
                                    frame.2 as int,
                                    letter,
                                    nxt as int,
                                );
                                lemma_measure_push(stack@, (grown, nxt, dnext), n as int);
                            }
                            stack.push((grown, nxt, dnext));
                            proof {
                                assert(stack@.len() == stack_h.len() + 1);
                                assert(stack@[stack_h.len() as int].0@ == frame.0@.push(letter));
                                assert(stack@[stack_h.len() as int].1 == nxt);
                                assert(stack@[stack_h.len() as int].2 == dnext);
                                assert(forall|fi: int|
                                    0 <= fi < stack_h.len() ==> stack@[fi] == stack_h[fi]);
                            }
                        }
                        None => {}
                    }
                    let ghost stack_m = stack@;
                    let brk = if boundary {
                        self.next_node(0, letter)
                    } else {
                        None
                    };
                    match brk {
                        Some(nxt) => {
                            let mut fresh = clone_chars(&frame.0);
                            fresh.push(' ');
                            fresh.push(letter);
                            proof {
                                lemma_frame_break(
                                    *self,
                                    digits,
                                    frame.0@,
                                    frame.1 as int,
                                    frame.2 as int,
                                    letter,
                                    nxt as int,
                                );
                                lemma_measure_push(stack@, (fresh, nxt, dnext), n as int);
                            }
                            stack.push((fresh, nxt, dnext));
                            proof {
                                assert(stack@.len() == stack_m.len() + 1);
                                assert(stack@[stack_m.len() as int].0@ == frame.0@.push(
                                    ' ',
                                ).push(letter));
                                assert(stack@[stack_m.len() as int].1 == nxt);
                                assert(stack@[stack_m.len() as int].2 == dnext);
                                assert(forall|fi: int|
                                    0 <= fi < stack_m.len() ==> stack@[fi] == stack_m[fi]);
                            }
                        }
                        None => {}
                    }
                    proof {
                        assert(2 * ((li + 1) as nat) * pw == 2 * (li as nat) * pw + 2 * pw)
                            by (nonlinear_arith);
                        let d: int = frame.2 as int;
                        assert(forall|fi: int|
                            0 <= fi < stack_h.len() ==> stack@[fi] == stack_h[fi]);
                        // the new frames' completions are the popped frame's
                        assert forall|fi: int, out: Seq<char>|
                            0 <= fi < stack@.len() && #[trigger] reaches(
                                *self,
                                digits,
                                stack@[fi].0@,
                                stack@[fi].1 as int,
                                stack@[fi].2 as int,
                                out,
                            ) implies reaches(*self, digits, Seq::<char>::empty(), 0, 0, out) by {
                            if fi < stack_h.len() {
                                assert(stack@[fi] == stack_h[fi]);
                                assert(reaches(
                                    *self,
                                    digits,
                                    stack_h[fi].0@,
                                    stack_h[fi].1 as int,
                                    stack_h[fi].2 as int,
                                    out,
                                ));
                            } else if fi < stack_m.len() {
                                match cont {
                                    Some(nxtc) => {
                                        assert(stack@[fi] == stack_m[fi]);
                                        assert(stack@[fi].0@ == frame.0@.push(letter));
                                        assert(stack@[fi].1 == nxtc);
                                        assert(stack@[fi].2 == dnext);
                                        lemma_reaches_intro_letter(
                                            *self,
                                            digits,
                                            frame.0@,
                                            frame.1 as int,
                                            d,
                                            letter,
                                            nxtc as int,
                                            out,
                                        );
                                        assert(reaches(
                                            *self,
                                            digits,
                                            frame.0@,
                                            frame.1 as int,
                                            frame.2 as int,
                                            out,
                                        ));
                                    }
                                    None => {
                                        assert(false);
                                    }
                                }
                            } else {
                                match brk {
                                    Some(nxtb) => {
                                        assert(stack@[fi].0@ == frame.0@.push(' ').push(letter));
                                        assert(stack@[fi].1 == nxtb);
                                        assert(stack@[fi].2 == dnext);
                                        lemma_reaches_intro_break(
                                            *self,
                                            digits,
                                            frame.0@,
                                            frame.1 as int,
                                            d,
                                            letter,
                                            nxtb as int,
                                            out,
                                        );
                                        assert(reaches(
                                            *self,
                                            digits,
                                            frame.0@,
                                            frame.1 as int,
                                            frame.2 as int,
                                            out,
                                        ));
                                    }
                                    None => {
                                        assert(false);
                                    }
                                }
                            }
                        }
                        assert forall|out: Seq<char>|
                            #[trigger] reaches(*self, digits, Seq::<char>::empty(), 0, 0, out)
                                implies covered(*self, digits, outs@, stack@, out) || (exists|
                            li2: int,
                        |
                            li + 1 <= li2 < t9_spec(digit).len() && #[trigger] t9_spec(
                                digit,
                            )[li2] == action_letter(frame.0@, out) && reaches(
                                *self,
                                digits,
                                frame.0@,
                                frame.1 as int,
                                d,
                                out,
                            )) by {
                            if covered(*self, digits, outs@, stack_h, out) {
                                if exists|j: int|
                                    0 <= j < outs@.len() && (#[trigger] outs@[j])@ == out {
                                } else {
                                    let fi = choose|fi: int|
                                        0 <= fi < stack_h.len() && reaches(
                                            *self,
                                            digits,
                                            (#[trigger] stack_h[fi]).0@,
                                            stack_h[fi].1 as int,
                                            stack_h[fi].2 as int,
                                            out,
                                        );
                                    assert(stack@[fi] == stack_h[fi]);
                                }
                            } else if exists|li2: int|
                                li <= li2 < t9_spec(digit).len() && #[trigger] t9_spec(
                                    digit,
                                )[li2] == action_letter(frame.0@, out) && reaches(
                                    *self,
                                    digits,
                                    frame.0@,
                                    frame.1 as int,
                                    d,
                                    out,
                                ) {
                                let li2 = choose|li2: int|
                                    li <= li2 < t9_spec(digit).len() && #[trigger] t9_spec(
                                        digit,
                                    )[li2] == action_letter(frame.0@, out) && reaches(
                                        *self,
                                        digits,
                                        frame.0@,
                                        frame.1 as int,
                                        d,
                                        out,
                                    );
                                if li2 == li {
                                    lemma_reaches_step(
                                        *self,
                                        digits,
                                        frame.0@,
                                        frame.1 as int,
                                        d,
                                        out,
                                    );
                                    assert(action_letter(frame.0@, out) == letter);
                                    if out[frame.0@.len() as int] == ' ' {
                                        assert(self.terminal_at(frame.1 as int));
                                        match brk {
                                            Some(_) => {
                                                assert(reaches(
                                                    *self,
                                                    digits,
                                                    stack@[stack_m.len() as int].0@,
                                                    stack@[stack_m.len() as int].1 as int,
                                                    stack@[stack_m.len() as int].2 as int,
                                                    out,
                                                ));
                                            }
                                            None => {
                                                assert(false);
                                            }
                                        }
                                    } else {
                                        match cont {
                                            Some(_) => {
                                                assert(reaches(
                                                    *self,
                                                    digits,
                                                    stack@[stack_h.len() as int].0@,
                                                    stack@[stack_h.len() as int].1 as int,
                                                    stack@[stack_h.len() as int].2 as int,
                                                    out,
                                                ));
                                            }
                                            None => {
                                                assert(false);
                                            }
                                        }
                                    }
                                } else {
                                    assert(li + 1 <= li2);
                                }
                            }
                        }
                    }
                    li += 1;
                }
                proof {
                    assert(2 * (li as nat) * pw <= 8 * pw) by (nonlinear_arith)
                        requires
                            li <= 4,
                            pw >= 0,
                    ;
                    assert(stack_measure(stack@, n as int) < m0);
                }
            }
        }
        let mut results: Vec<String> = Vec::new();
        let mut ri: usize = 0;
        while ri < outs.len()
            invariant
                ri <= outs@.len(),
                results@.len() == ri as int,
                forall|j: int| 0 <= j < ri ==> (#[trigger] results@[j])@ == outs@[j]@,
            decreases outs@.len() - ri,
        {
            let s = chars_to_string(&outs[ri]);
            results.push(s);
            ri += 1;
        }
        proof {
            assert(results@.len() == outs@.len());
            assert forall|j: int|
                0 <= j < results@.len() implies joined(*self, (#[trigger] results@[j])@)
                && mapped_digits(results@[j]@) == phone_number@ && reaches(
                *self,
                phone_number@,
                Seq::<char>::empty(),
                0,
                0,
                results@[j]@,
            ) by {
                assert(results@[j]@ == outs@[j]@);
            }
            assert forall|j1: int, j2: int|
                0 <= j1 < j2 < results@.len() implies (#[trigger] results@[j1])@ != (
            #[trigger] results@[j2])@ by {
                assert(results@[j1]@ == outs@[j1]@);
                assert(results@[j2]@ == outs@[j2]@);
            }
            assert forall|out: Seq<char>|
                #[trigger] reaches(*self, digits, Seq::<char>::empty(), 0, 0, out)
                    implies exists|j: int|
                0 <= j < results@.len() && (#[trigger] results@[j])@ == out by {
                assert(covered(*self, digits, outs@, stack@, out));
                let j = choose|j: int| 0 <= j < outs@.len() && (#[trigger] outs@[j])@ == out;
                assert(results@[j]@ == out);
            }
        }
        results
    }
}

} // verus!
