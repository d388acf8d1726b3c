//! Adaptive word-dictionary text transform.
//!
//! Frequent words are replaced by one- or two-byte tokens built from byte values
//! that do not occur in the input, so nothing ever needs escaping. The dictionary
//! is mined from the input itself and stored in front of the tokenized text. A word
//! is a maximal alphanumeric run, with one preceding space if there is one.
//!
//! Layout of a transformed text:
//!
//! ```text
//! [0]      format: 1
//! [1]      number of one-byte tokens
//! [2]      number of lead bytes of two-byte tokens
//! [3..]    the one-byte tokens, then the lead bytes
//! [..+4]   number of words, u32 LE
//! per word its length, one byte, and its bytes
//! [rest]   the tokenized text
//! ```
//!
//! Words in the order of the dictionary are spelled by the one-byte tokens as far as
//! these go, then by pairs of a lead byte and a byte that counts up from 0.
use vstd::multiset::*;
use vstd::prelude::*;
use vstd::relations::*;
use vstd::seq_lib::*;
use crate::bytes;
use crate::cm::sizing;
use crate::transform::mining;
use crate::transform::order;
use crate::transform::order::{Entry, Key};

verus! {

/// Longest dictionary entry.
pub const MAX_WORD: usize = 40;

/// Shortest dictionary entry.
pub const MIN_WORD: usize = 3;

/// Most one-byte tokens.
pub const MAX_SINGLE: usize = 24;

/// Most lead bytes of two-byte tokens.
pub const MAX_LEAD: usize = 40;

/// How often a word must occur to be considered.
pub const MIN_COUNT: usize = 8;

// ---------------------------------------------------------------------------
// Text and words
// ---------------------------------------------------------------------------

/// A letter or digit.
pub open spec fn word_byte(b: u8) -> bool {
    48 <= b <= 57 || 65 <= b <= 90 || 97 <= b <= 122
}

/// A byte of plain text: a line break or a printable character.
pub open spec fn textual(b: u8) -> bool {
    b == 10 || 32 <= b <= 126
}

/// How many of the bytes at `i`, `i + step`, `i + 2 * step`, ... are text.
pub open spec fn textual_from(data: Seq<u8>, i: int, step: int) -> int
    decreases data.len() + step - i,
    when step > 0
{
    if i >= data.len() {
        0
    } else {
        (if textual(data[i]) { 1int } else { 0int }) + textual_from(data, i + step, step)
    }
}

/// How many bytes stand at `i`, `i + step`, `i + 2 * step`, ...
pub open spec fn samples_from(n: int, i: int, step: int) -> int
    decreases n + step - i,
    when step > 0
{
    if i >= n {
        0
    } else {
        1 + samples_from(n, i + step, step)
    }
}

/// Distance between samples: about a million are taken.
pub open spec fn sample_step(n: int) -> int {
    if n / 0x10_0000 < 1 {
        1
    } else {
        n / 0x10_0000
    }
}

/// At least 70% of a sample of the input is text, and the input is worth the effort.
pub open spec fn texty(data: Seq<u8>) -> bool {
    let step = sample_step(data.len() as int);
    &&& data.len() >= 0x1_0000
    &&& textual_from(data, 0, step) * 100 >= samples_from(data.len() as int, 0, step) * 70
}

/// End of the alphanumeric run at `i`.
pub open spec fn word_stop(data: Seq<u8>, i: int) -> int
    decreases data.len() - i,
{
    if 0 <= i < data.len() && word_byte(data[i]) {
        word_stop(data, i + 1)
    } else {
        i
    }
}

/// End of the candidate at `i`, an alphanumeric run with an optional space before
/// it; `i` itself if there is none.
pub open spec fn run_stop(data: Seq<u8>, i: int) -> int {
    if data[i] != 32 {
        word_stop(data, i)
    } else if i + 1 < data.len() && word_byte(data[i + 1]) {
        word_stop(data, i + 1)
    } else {
        i
    }
}

/// Where the scan goes on after position `i`.
pub open spec fn following(data: Seq<u8>, i: int) -> int {
    if run_stop(data, i) > i {
        run_stop(data, i)
    } else {
        i + 1
    }
}

/// The candidates from `i` on, in order.
pub open spec fn runs(data: Seq<u8>, i: int) -> Seq<Seq<u8>>
    decreases data.len() - i,
{
    if i < 0 || i >= data.len() {
        Seq::empty()
    } else if run_stop(data, i) > i {
        proof {
            lemma_run_stop(data, i);
        }
        seq![data.subrange(i, run_stop(data, i))] + runs(data, following(data, i))
    } else {
        proof {
            lemma_run_stop(data, i);
        }
        runs(data, following(data, i))
    }
}

/// How often `w` occurs as a candidate.
pub open spec fn occurrences(data: Seq<u8>, w: Seq<u8>) -> nat {
    runs(data, 0).to_multiset().count(w)
}

/// Bytes saved by replacing every occurrence of `w` with `k` bytes.
pub open spec fn saving(data: Seq<u8>, w: Seq<u8>, k: int) -> int {
    (w.len() - k) * occurrences(data, w)
}

/// `w` is worth a place in the dictionary.
pub open spec fn eligible(data: Seq<u8>, w: Seq<u8>) -> bool {
    &&& 3 <= w.len() <= 40
    &&& occurrences(data, w) >= 8
    &&& saving(data, w, 2) > 64
}

// ---------------------------------------------------------------------------
// Token alphabet
// ---------------------------------------------------------------------------

/// Byte values from `b` on that do not occur in the input.
pub open spec fn unused_from(data: Seq<u8>, b: int) -> Seq<u8>
    decreases 256 - b,
{
    if b >= 256 {
        Seq::empty()
    } else if data.contains(b as u8) {
        unused_from(data, b + 1)
    } else {
        seq![b as u8] + unused_from(data, b + 1)
    }
}

/// Byte values that do not occur in the input.
pub open spec fn unused(data: Seq<u8>) -> Seq<u8> {
    unused_from(data, 0)
}

/// One-byte tokens made from `u` unused byte values.
pub open spec fn single_count(u: int) -> int {
    let most = if u - 40 > u / 3 { u - 40 } else { u / 3 };
    sizing::min(24, most)
}

/// Lead bytes made from `u` unused byte values.
pub open spec fn lead_count(u: int) -> int {
    sizing::min(u - single_count(u), 40)
}

/// The bytes that tokens are built from.
pub struct Alphabet {
    pub singles: Seq<u8>,
    pub leads: Seq<u8>,
}

/// The token alphabet of an input.
pub open spec fn alphabet(data: Seq<u8>) -> Alphabet {
    let u = unused(data);
    let ns = single_count(u.len() as int);
    Alphabet {
        singles: u.take(ns),
        leads: u.subrange(ns, ns + lead_count(u.len() as int)),
    }
}

impl Alphabet {
    /// Words it can spell.
    pub open spec fn capacity(self) -> int {
        self.singles.len() as int + 256 * self.leads.len()
    }

    /// How word `k` of the dictionary is spelled.
    pub open spec fn spell(self, k: int) -> Seq<u8> {
        let j = k - self.singles.len();
        if j < 0 {
            seq![self.singles[k]]
        } else {
            seq![self.leads[j / 256], (j % 256) as u8]
        }
    }
}

// ---------------------------------------------------------------------------
// Dictionary
// ---------------------------------------------------------------------------

/// Word `v` may stand before `w`: it saves more, or as much and is not behind in the
/// alphabet.
pub open spec fn outranks(data: Seq<u8>, k: int, v: Seq<u8>, w: Seq<u8>) -> bool {
    saving(data, v, k) > saving(data, w, k) || saving(data, v, k) == saving(data, w, k)
        && order::lex_le(v, w)
}

/// Words stand in order of what they save, most first, then alphabetically.
pub open spec fn by_saving(data: Seq<u8>, ws: Seq<Seq<u8>>, k: int) -> bool {
    forall|i: int, j: int|
        0 <= i < j < ws.len() ==> outranks(data, k, #[trigger] ws[i], #[trigger] ws[j])
}

/// Words stand in alphabetical order.
pub open spec fn alphabetical(ws: Seq<Seq<u8>>) -> bool {
    forall|i: int, j: int|
        0 <= i < j < ws.len() ==> order::lex_le(#[trigger] ws[i], #[trigger] ws[j])
}

/// `ranked` holds every eligible word once, those first that save most as two-byte
/// tokens.
pub open spec fn ranking(data: Seq<u8>, ranked: Seq<Seq<u8>>) -> bool {
    &&& ranked.no_duplicates()
    &&& forall|w: Seq<u8>| #[trigger] ranked.contains(w) <==> eligible(data, w)
    &&& by_saving(data, ranked, 2)
}

/// `words` is how a dictionary is made from a ranking. As many words are kept as can
/// be spelled. The front runners are ranked anew by what they save as one-byte
/// tokens; the words that are left with pairs stand in alphabetical order.
pub open spec fn dictionary(
    data: Seq<u8>,
    ranked: Seq<Seq<u8>>,
    front: Seq<Seq<u8>>,
    words: Seq<Seq<u8>>,
) -> bool {
    let a = alphabet(data);
    let ns = a.singles.len() as int;
    let kept = ranked.take(sizing::min(ranked.len() as int, a.capacity()));
    let n = kept.len() as int;
    let head = sizing::min(n, 4 * ns);
    let cut = sizing::min(n, ns);
    &&& ranking(data, ranked)
    &&& front.len() == n
    &&& front.take(head).to_multiset() == kept.take(head).to_multiset()
    &&& by_saving(data, front.take(head), 1)
    &&& front.skip(head) == kept.skip(head)
    &&& words.len() == n
    &&& words.take(cut) == front.take(cut)
    &&& words.skip(cut).to_multiset() == front.skip(cut).to_multiset()
    &&& alphabetical(words.skip(cut))
}

// ---------------------------------------------------------------------------
// The transformed text
// ---------------------------------------------------------------------------

/// What stands for the input at position `i`: a token if the candidate there, or the
/// word in it, is in the dictionary, else the bytes themselves.
pub open spec fn piece(data: Seq<u8>, i: int, words: Seq<Seq<u8>>, a: Alphabet) -> Seq<u8> {
    let run = data.subrange(i, run_stop(data, i));
    if run_stop(data, i) <= i {
        seq![data[i]]
    } else if run.len() <= 40 && words.contains(run) {
        a.spell(words.index_of(run))
    } else if run.len() <= 40 && run[0] == 32 && words.contains(run.drop_first()) {
        seq![32u8] + a.spell(words.index_of(run.drop_first()))
    } else {
        run
    }
}

/// The tokenized text from position `i` on.
pub open spec fn tokens(data: Seq<u8>, i: int, words: Seq<Seq<u8>>, a: Alphabet) -> Seq<u8>
    decreases data.len() - i,
{
    if i < 0 || i >= data.len() {
        Seq::empty()
    } else {
        proof {
            lemma_run_stop(data, i);
        }
        piece(data, i, words, a) + tokens(data, following(data, i), words, a)
    }
}

/// The first `k` dictionary entries.
pub open spec fn entries(words: Seq<Seq<u8>>, k: int) -> Seq<u8>
    decreases k,
{
    if k <= 0 {
        Seq::empty()
    } else {
        entries(words, k - 1) + seq![words[k - 1].len() as u8] + words[k - 1]
    }
}

/// Everything in front of the tokenized text.
pub open spec fn header(words: Seq<Seq<u8>>, a: Alphabet) -> Seq<u8> {
    seq![1u8, a.singles.len() as u8, a.leads.len() as u8] + a.singles + a.leads + bytes::le(
        words.len(),
        4,
    ) + entries(words, words.len() as int)
}

/// The transformed text under a dictionary.
pub open spec fn transformed(data: Seq<u8>, words: Seq<Seq<u8>>) -> Seq<u8> {
    header(words, alphabet(data)) + tokens(data, 0, words, alphabet(data))
}

/// The transform is worth it: the result is at least a 32nd smaller.
pub open spec fn shrinks(new: int, old: int) -> bool {
    new + new / 32 < old
}

/// What a ranking and a dictionary make of the input: nothing, if there are too few
/// words or it is not worth it.
pub open spec fn rewritten(data: Seq<u8>, ranked: Seq<Seq<u8>>, words: Seq<Seq<u8>>) -> Option<
    Seq<u8>,
> {
    let t = transformed(data, words);
    if ranked.len() >= 16 && shrinks(t.len() as int, data.len() as int) {
        Some(t)
    } else {
        None
    }
}

/// `r` is what the transform makes of the input.
pub open spec fn outcome(data: Seq<u8>, r: Option<Seq<u8>>) -> bool {
    if texty(data) && unused(data).len() >= 12 {
        exists|ranked: Seq<Seq<u8>>, front: Seq<Seq<u8>>, words: Seq<Seq<u8>>| #[trigger]
            dictionary(data, ranked, front, words) && r == rewritten(data, ranked, words)
    } else {
        r is None
    }
}

// ---------------------------------------------------------------------------
// Inversion
// ---------------------------------------------------------------------------

/// The last place of `b` in `s`.
pub open spec fn last_place(s: Seq<u8>, b: u8) -> Option<int>
    decreases s.len(),
{
    if s.len() == 0 {
        None
    } else if s.last() == b {
        Some(s.len() - 1)
    } else {
        last_place(s.drop_last(), b)
    }
}

/// `x` put before a result, if there is one.
pub open spec fn prepend(x: Seq<u8>, r: Option<Seq<u8>>) -> Option<Seq<u8>> {
    match r {
        Some(s) => Some(x + s),
        None => None,
    }
}

/// The text that tokens stand for; `None` if a token has no word.
pub open spec fn untokenized(s: Seq<u8>, words: Seq<Seq<u8>>, a: Alphabet) -> Option<Seq<u8>>
    decreases s.len(),
{
    if s.len() == 0 {
        Some(Seq::empty())
    } else if last_place(a.singles, s[0]) is Some {
        let k = last_place(a.singles, s[0])->0;
        if k < words.len() {
            prepend(words[k], untokenized(s.skip(1), words, a))
        } else {
            None
        }
    } else if last_place(a.leads, s[0]) is Some {
        let k = a.singles.len() + last_place(a.leads, s[0])->0 * 256 + s[1];
        if s.len() >= 2 && k < words.len() {
            prepend(words[k], untokenized(s.skip(2), words, a))
        } else {
            None
        }
    } else {
        prepend(seq![s[0]], untokenized(s.skip(1), words, a))
    }
}

/// The next `k` dictionary entries of `s`, and what follows them; `None` if `s` ends
/// before they do.
pub open spec fn read_entries(s: Seq<u8>, k: int) -> Option<(Seq<Seq<u8>>, Seq<u8>)>
    decreases k,
{
    if k <= 0 {
        Some((Seq::empty(), s))
    } else if s.len() == 0 || s.len() < 1 + s[0] {
        None
    } else {
        match read_entries(s.skip(1 + s[0]), k - 1) {
            Some((ws, rest)) => Some((seq![s.subrange(1, 1 + s[0])] + ws, rest)),
            None => None,
        }
    }
}

/// The input of which `t` is the transformed text; `None` if `t` is malformed.
pub open spec fn inverse(t: Seq<u8>) -> Option<Seq<u8>> {
    if t.len() < 7 || t[0] != 1 || t.len() < 7 + t[1] + t[2] {
        None
    } else {
        let (ns, nl) = (t[1] as int, t[2] as int);
        let a = Alphabet {
            singles: t.subrange(3, 3 + ns),
            leads: t.subrange(3 + ns, 3 + ns + nl),
        };
        match read_entries(t.skip(7 + ns + nl), bytes::field(t, 3 + ns + nl, 4) as int) {
            Some((words, rest)) => untokenized(rest, words, a),
            None => None,
        }
    }
}

// ---------------------------------------------------------------------------
// The law
// ---------------------------------------------------------------------------

proof fn lemma_word_stop(data: Seq<u8>, i: int)
    requires
        0 <= i <= data.len(),
    ensures
        i <= word_stop(data, i) <= data.len(),
        forall|j: int| i <= j < word_stop(data, i) ==> word_byte(#[trigger] data[j]),
    decreases data.len() - i,
{
    if i < data.len() && word_byte(data[i]) {
        lemma_word_stop(data, i + 1);
    }
}

/// A candidate ends inside the input.
pub proof fn lemma_run_stop(data: Seq<u8>, i: int)
    requires
        0 <= i < data.len(),
    ensures
        i <= run_stop(data, i) <= data.len(),
        i < following(data, i) <= data.len(),
{
    lemma_word_stop(data, i);
    if i + 1 < data.len() {
        lemma_word_stop(data, i + 1);
    }
}

proof fn lemma_unused_from(data: Seq<u8>, b: int)
    requires
        0 <= b <= 256,
    ensures
        unused_from(data, b).len() <= 256 - b,
        unused_from(data, b).no_duplicates(),
        forall|i: int|
            0 <= i < unused_from(data, b).len() ==> b <= #[trigger] unused_from(data, b)[i]
                && !data.contains(unused_from(data, b)[i]),
    decreases 256 - b,
{
    if b < 256 {
        lemma_unused_from(data, b + 1);
        let rest = unused_from(data, b + 1);
        let s = unused_from(data, b);
        if !data.contains(b as u8) {
            assert forall|i: int| 0 <= i < s.len() implies b <= #[trigger] s[i] && !data.contains(
                s[i],
            ) by {
                if i > 0 {
                    assert(s[i] == rest[i - 1]);
                }
            }
            assert forall|i: int, j: int| 0 <= i < s.len() && 0 <= j < s.len() && i != j implies s[i]
                != s[j] by {
                if i > 0 {
                    assert(s[i] == rest[i - 1]);
                }
                if j > 0 {
                    assert(s[j] == rest[j - 1]);
                }
            }
        }
    }
}

/// Token bytes are distinct and none of them occurs in the input.
proof fn lemma_alphabet(data: Seq<u8>)
    ensures
        ({
            let a = alphabet(data);
            let u = unused(data);
            &&& u.len() <= 256
            &&& a.singles.len() == single_count(u.len() as int) <= 24
            &&& a.leads.len() == lead_count(u.len() as int) <= 40
            &&& a.singles.no_duplicates()
            &&& a.leads.no_duplicates()
            &&& forall|b: u8| #[trigger] data.contains(b) ==> !a.singles.contains(b)
                && !a.leads.contains(b)
            &&& forall|b: u8| #[trigger] a.leads.contains(b) ==> !a.singles.contains(b)
        }),
{
    lemma_unused_from(data, 0);
    let u = unused(data);
    let n = u.len() as int;
    let ns = single_count(n);
    let nl = lead_count(n);
    assert(0 <= ns <= n && 0 <= nl && ns + nl <= n);
    let a = alphabet(data);
    assert forall|b: u8| #[trigger] data.contains(b) implies !a.singles.contains(b)
        && !a.leads.contains(b) by {
        if a.singles.contains(b) {
            let i = choose|i: int| 0 <= i < a.singles.len() && a.singles[i] == b;
            assert(u[i] == b);
        }
        if a.leads.contains(b) {
            let i = choose|i: int| 0 <= i < a.leads.len() && a.leads[i] == b;
            assert(u[ns + i] == b);
        }
    }
    assert forall|b: u8| #[trigger] a.leads.contains(b) implies !a.singles.contains(b) by {
        let i = choose|i: int| 0 <= i < a.leads.len() && a.leads[i] == b;
        assert(u[ns + i] == b);
        if a.singles.contains(b) {
            let j = choose|j: int| 0 <= j < a.singles.len() && a.singles[j] == b;
            assert(u[j] == b);
        }
    }
}

proof fn lemma_last_place(s: Seq<u8>, b: u8)
    ensures
        last_place(s, b) is None <==> !s.contains(b),
        last_place(s, b) matches Some(k) ==> 0 <= k < s.len() && s[k] == b,
    decreases s.len(),
{
    if s.len() > 0 {
        lemma_last_place(s.drop_last(), b);
        if s.last() == b {
            assert(s[s.len() - 1] == b);
        } else {
            assert(s.drop_last().contains(b) <==> s.contains(b)) by {
                if s.contains(b) {
                    let i = choose|i: int| 0 <= i < s.len() && s[i] == b;
                    assert(s.drop_last()[i] == b);
                }
                if s.drop_last().contains(b) {
                    let i = choose|i: int| 0 <= i < s.len() - 1 && s.drop_last()[i] == b;
                    assert(s[i] == b);
                }
            }
        }
    }
}

/// Bytes that are no tokens stand for themselves.
proof fn lemma_literal(x: Seq<u8>, rest: Seq<u8>, words: Seq<Seq<u8>>, a: Alphabet)
    requires
        forall|i: int|
            0 <= i < x.len() ==> !a.singles.contains(#[trigger] x[i]) && !a.leads.contains(x[i]),
    ensures
        untokenized(x + rest, words, a) == prepend(x, untokenized(rest, words, a)),
    decreases x.len(),
{
    let s = x + rest;
    if x.len() > 0 {
        assert(s[0] == x[0]);
        lemma_last_place(a.singles, s[0]);
        lemma_last_place(a.leads, s[0]);
        assert(s.skip(1) =~= x.drop_first() + rest);
        assert forall|i: int| 0 <= i < x.drop_first().len() implies !a.singles.contains(
            #[trigger] x.drop_first()[i],
        ) && !a.leads.contains(x.drop_first()[i]) by {
            assert(x.drop_first()[i] == x[i + 1]);
        }
        lemma_literal(x.drop_first(), rest, words, a);
        match untokenized(rest, words, a) {
            Some(r) => {
                assert(seq![x[0]] + (x.drop_first() + r) =~= x + r);
            },
            None => {},
        }
    } else {
        assert(s =~= rest);
        match untokenized(rest, words, a) {
            Some(r) => {
                assert(x + r =~= r);
            },
            None => {},
        }
    }
}

/// A token stands for its word.
proof fn lemma_token(k: int, rest: Seq<u8>, words: Seq<Seq<u8>>, a: Alphabet)
    requires
        a.singles.no_duplicates(),
        a.leads.no_duplicates(),
        forall|b: u8| #[trigger] a.leads.contains(b) ==> !a.singles.contains(b),
        0 <= k < words.len() <= a.capacity(),
    ensures
        untokenized(a.spell(k) + rest, words, a) == prepend(
            words[k],
            untokenized(rest, words, a),
        ),
{
    let s = a.spell(k) + rest;
    let ns = a.singles.len() as int;
    let b = s[0];
    lemma_last_place(a.singles, b);
    lemma_last_place(a.leads, b);
    if k < ns {
        assert(a.singles[k] == b);
        assert(s.skip(1) =~= rest);
    } else {
        let j = k - ns;
        assert(0 <= j / 256 < a.leads.len());
        assert(a.leads[j / 256] == b);
        assert(a.leads.contains(b));
        assert(s[1] == (j % 256) as u8);
        assert(s.skip(2) =~= rest);
    }
}

/// Undoing the tokens of the input from `i` on gives that part of the input.
proof fn lemma_untokenize(data: Seq<u8>, i: int, words: Seq<Seq<u8>>)
    requires
        0 <= i <= data.len(),
        words.len() <= alphabet(data).capacity(),
    ensures
        untokenized(tokens(data, i, words, alphabet(data)), words, alphabet(data)) == Some(
            data.skip(i),
        ),
    decreases data.len() - i,
{
    let a = alphabet(data);
    lemma_alphabet(data);
    if i < data.len() {
        lemma_run_stop(data, i);
        let next = following(data, i);
        let stop = run_stop(data, i);
        let run = data.subrange(i, stop);
        let rest = tokens(data, next, words, a);
        lemma_untokenize(data, next, words);
        assert(data.skip(i) =~= data.subrange(i, next) + data.skip(next));
        assert forall|j: int| 0 <= j < run.len() implies !a.singles.contains(#[trigger] run[j])
            && !a.leads.contains(run[j]) by {
            assert(run[j] == data[i + j]);
            assert(data.contains(run[j]));
        }
        if stop <= i {
            assert(data.contains(data[i]));
            lemma_literal(seq![data[i]], rest, words, a);
            assert(data.subrange(i, next) =~= seq![data[i]]);
        } else if run.len() <= 40 && words.contains(run) {
            lemma_token(words.index_of(run), rest, words, a);
        } else if run.len() <= 40 && run[0] == 32 && words.contains(run.drop_first()) {
            let k = words.index_of(run.drop_first());
            lemma_token(k, rest, words, a);
            let space = seq![32u8];
            assert(data.contains(run[0]));
            lemma_literal(space, a.spell(k) + rest, words, a);
            assert(space + a.spell(k) + rest =~= space + (a.spell(k) + rest));
            assert(space + (run.drop_first() + data.skip(next)) =~= data.skip(i));
        } else {
            lemma_literal(run, rest, words, a);
        }
    } else {
        assert(data.skip(i) =~= Seq::empty());
    }
}

proof fn lemma_entries_front(words: Seq<Seq<u8>>, k: int)
    requires
        0 < k <= words.len(),
    ensures
        entries(words, k) == seq![words[0].len() as u8] + words[0] + entries(
            words.drop_first(),
            k - 1,
        ),
    decreases k,
{
    if k > 1 {
        lemma_entries_front(words, k - 1);
        assert(words.drop_first()[k - 2] == words[k - 1]);
        assert(entries(words, k) =~= seq![words[0].len() as u8] + words[0] + entries(
            words.drop_first(),
            k - 1,
        ));
    } else {
        assert(entries(words, 0) =~= Seq::empty());
        assert(entries(words, 1) =~= seq![words[0].len() as u8] + words[0] + Seq::empty());
    }
}

proof fn lemma_read_entries(words: Seq<Seq<u8>>, rest: Seq<u8>)
    requires
        forall|i: int| 0 <= i < words.len() ==> (#[trigger] words[i]).len() <= 255,
    ensures
        read_entries(entries(words, words.len() as int) + rest, words.len() as int) == Some(
            (words, rest),
        ),
    decreases words.len(),
{
    let k = words.len() as int;
    let s = entries(words, k) + rest;
    if k > 0 {
        lemma_entries_front(words, k);
        let more = words.drop_first();
        assert(words[0].len() <= 255);
        assert forall|i: int| 0 <= i < more.len() implies (#[trigger] more[i]).len() <= 255 by {
            assert(more[i] == words[i + 1]);
        }
        lemma_read_entries(more, rest);
        let l = words[0].len() as int;
        assert(s[0] == l);
        assert(s.subrange(1, 1 + l) =~= words[0]);
        assert(s.skip(1 + l) =~= entries(more, k - 1) + rest);
        assert(seq![words[0]] + more =~= words);
    } else {
        assert(s =~= rest);
        assert(words =~= Seq::empty());
    }
}

/// The transform is exactly invertible: undoing a transformed text gives back the
/// input, whatever words of up to 255 bytes its dictionary holds, as long as they
/// can all be spelled.
pub proof fn invert_undoes_apply(data: Seq<u8>, words: Seq<Seq<u8>>)
    requires
        words.len() <= alphabet(data).capacity(),
        forall|i: int| 0 <= i < words.len() ==> (#[trigger] words[i]).len() <= 255,
    ensures
        inverse(transformed(data, words)) == Some(data),
{
    let a = alphabet(data);
    let t = transformed(data, words);
    lemma_alphabet(data);
    let (ns, nl) = (a.singles.len() as int, a.leads.len() as int);
    let rest = tokens(data, 0, words, a);
    let table = entries(words, words.len() as int);
    bytes::lemma_widths();
    bytes::le_round_trip(words.len(), 4);
    assert(t.subrange(3, 3 + ns) =~= a.singles);
    assert(t.subrange(3 + ns, 3 + ns + nl) =~= a.leads);
    assert(t.subrange(3 + ns + nl, 7 + ns + nl) =~= bytes::le(words.len(), 4));
    assert(t.skip(7 + ns + nl) =~= table + rest);
    lemma_read_entries(words, rest);
    lemma_untokenize(data, 0, words);
    assert(data.skip(0) =~= data);
}

/// Whatever the transform makes of the input, undoing it gives the input back.
pub proof fn outcome_is_invertible(data: Seq<u8>, t: Seq<u8>)
    requires
        outcome(data, Some(t)),
    ensures
        inverse(t) == Some(data),
        t.len() < data.len(),
{
    let (ranked, front, words) = choose|
        ranked: Seq<Seq<u8>>,
        front: Seq<Seq<u8>>,
        words: Seq<Seq<u8>>,
    |
        #[trigger] dictionary(data, ranked, front, words) && ranked.len() >= 16 && t
            == transformed(data, words);
    let a = alphabet(data);
    let ns = a.singles.len() as int;
    lemma_alphabet(data);
    let kept = ranked.take(sizing::min(ranked.len() as int, a.capacity()));
    let head = sizing::min(kept.len() as int, 4 * ns);
    let cut = sizing::min(kept.len() as int, ns);
    mining::lemma_glue(front, kept, head);
    mining::lemma_glue_front(words, front, cut);
    order::lemma_permuted(words, front);
    order::lemma_permuted(front, kept);
    assert forall|i: int| 0 <= i < words.len() implies (#[trigger] words[i]).len() <= 255 by {
        let w = words[i];
        assert(words.contains(w));
        assert(front.contains(w));
        assert(kept.contains(w));
        let j = choose|j: int| 0 <= j < kept.len() && kept[j] == w;
        assert(ranked[j] == w);
        assert(ranked.contains(w));
        assert(eligible(data, w));
    }
    invert_undoes_apply(data, words);
}

// ---------------------------------------------------------------------------
// One result
// ---------------------------------------------------------------------------

proof fn lemma_rank_order(data: Seq<u8>, k: int)
    ensures
        total_ordering(|v: Seq<u8>, w: Seq<u8>| outranks(data, k, v, w)),
{
    let leq = |v: Seq<u8>, w: Seq<u8>| outranks(data, k, v, w);
    assert(total_ordering(leq)) by {
        assert forall|v: Seq<u8>| #[trigger] leq(v, v) by {
            order::lemma_lex_reflexive(v);
        }
        assert forall|v: Seq<u8>, w: Seq<u8>| #[trigger]
            leq(v, w) && #[trigger] leq(w, v) implies v == w by {
            order::lemma_lex_antisymmetric(v, w);
        }
        assert forall|u: Seq<u8>, v: Seq<u8>, w: Seq<u8>| #[trigger]
            leq(u, v) && #[trigger] leq(v, w) implies leq(u, w) by {
            if order::lex_le(u, v) && order::lex_le(v, w) {
                order::lemma_lex_transitive(u, v, w);
            }
        }
        assert forall|v: Seq<u8>, w: Seq<u8>| #[trigger] leq(v, w) || #[trigger] leq(w, v) by {
            order::lemma_lex_total(v, w);
        }
    }
}

proof fn lemma_lex_order()
    ensures
        total_ordering(|v: Seq<u8>, w: Seq<u8>| order::lex_le(v, w)),
{
    let leq = |v: Seq<u8>, w: Seq<u8>| order::lex_le(v, w);
    assert(total_ordering(leq)) by {
        assert forall|v: Seq<u8>| #[trigger] leq(v, v) by {
            order::lemma_lex_reflexive(v);
        }
        assert forall|v: Seq<u8>, w: Seq<u8>| #[trigger]
            leq(v, w) && #[trigger] leq(w, v) implies v == w by {
            order::lemma_lex_antisymmetric(v, w);
        }
        assert forall|u: Seq<u8>, v: Seq<u8>, w: Seq<u8>| #[trigger]
            leq(u, v) && #[trigger] leq(v, w) implies leq(u, w) by {
            order::lemma_lex_transitive(u, v, w);
        }
        assert forall|v: Seq<u8>, w: Seq<u8>| #[trigger] leq(v, w) || #[trigger] leq(w, v) by {
            order::lemma_lex_total(v, w);
        }
    }
}

proof fn lemma_ranked_unique(data: Seq<u8>, k: int, a: Seq<Seq<u8>>, b: Seq<Seq<u8>>)
    requires
        by_saving(data, a, k),
        by_saving(data, b, k),
        a.to_multiset() == b.to_multiset(),
    ensures
        a == b,
{
    let leq = |v: Seq<u8>, w: Seq<u8>| outranks(data, k, v, w);
    lemma_rank_order(data, k);
    assert(sorted_by(a, leq)) by {
        assert forall|i: int, j: int| 0 <= i < j < a.len() implies #[trigger] leq(a[i], a[j]) by {}
    }
    assert(sorted_by(b, leq)) by {
        assert forall|i: int, j: int| 0 <= i < j < b.len() implies #[trigger] leq(b[i], b[j]) by {}
    }
    lemma_sorted_unique(a, b, leq);
}

proof fn lemma_alphabetical_unique(a: Seq<Seq<u8>>, b: Seq<Seq<u8>>)
    requires
        alphabetical(a),
        alphabetical(b),
        a.to_multiset() == b.to_multiset(),
    ensures
        a == b,
{
    let leq = |v: Seq<u8>, w: Seq<u8>| order::lex_le(v, w);
    lemma_lex_order();
    assert(sorted_by(a, leq)) by {
        assert forall|i: int, j: int| 0 <= i < j < a.len() implies #[trigger] leq(a[i], a[j]) by {}
    }
    assert(sorted_by(b, leq)) by {
        assert forall|i: int, j: int| 0 <= i < j < b.len() implies #[trigger] leq(b[i], b[j]) by {}
    }
    lemma_sorted_unique(a, b, leq);
}

/// The same words, each once, are a permutation of each other.
proof fn lemma_same_words(a: Seq<Seq<u8>>, b: Seq<Seq<u8>>)
    requires
        a.no_duplicates(),
        b.no_duplicates(),
        forall|w: Seq<u8>| #[trigger] a.contains(w) <==> b.contains(w),
    ensures
        a.to_multiset() == b.to_multiset(),
{
    a.lemma_multiset_has_no_duplicates();
    b.lemma_multiset_has_no_duplicates();
    assert forall|w: Seq<u8>| a.to_multiset().count(w) == b.to_multiset().count(w) by {
        to_multiset_contains(a, w);
        to_multiset_contains(b, w);
        assert(a.contains(w) <==> b.contains(w));
    }
    assert(a.to_multiset() =~= b.to_multiset());
}

/// An input has one ranking and one dictionary.
pub proof fn dictionary_is_unique(
    data: Seq<u8>,
    ranked1: Seq<Seq<u8>>,
    front1: Seq<Seq<u8>>,
    words1: Seq<Seq<u8>>,
    ranked2: Seq<Seq<u8>>,
    front2: Seq<Seq<u8>>,
    words2: Seq<Seq<u8>>,
)
    requires
        dictionary(data, ranked1, front1, words1),
        dictionary(data, ranked2, front2, words2),
    ensures
        ranked1 == ranked2,
        words1 == words2,
{
    assert forall|w: Seq<u8>| #[trigger] ranked1.contains(w) <==> ranked2.contains(w) by {
        assert(ranked1.contains(w) <==> eligible(data, w));
        assert(ranked2.contains(w) <==> eligible(data, w));
    }
    lemma_same_words(ranked1, ranked2);
    lemma_ranked_unique(data, 2, ranked1, ranked2);
    let a = alphabet(data);
    let ns = a.singles.len() as int;
    let n = sizing::min(ranked1.len() as int, a.capacity());
    let head = sizing::min(n, 4 * ns);
    let cut = sizing::min(n, ns);
    lemma_ranked_unique(data, 1, front1.take(head), front2.take(head));
    assert(front1 =~= front1.take(head) + front1.skip(head));
    assert(front2 =~= front2.take(head) + front2.skip(head));
    lemma_alphabetical_unique(words1.skip(cut), words2.skip(cut));
    assert(words1 =~= words1.take(cut) + words1.skip(cut));
    assert(words2 =~= words2.take(cut) + words2.skip(cut));
}

/// The transform makes one thing of an input, however often it is applied.
pub proof fn outcome_is_unique(data: Seq<u8>, r1: Option<Seq<u8>>, r2: Option<Seq<u8>>)
    requires
        outcome(data, r1),
        outcome(data, r2),
    ensures
        r1 == r2,
{
    if texty(data) && unused(data).len() >= 12 {
        let (a1, b1, c1) = choose|a: Seq<Seq<u8>>, b: Seq<Seq<u8>>, c: Seq<Seq<u8>>| #[trigger]
            dictionary(data, a, b, c) && r1 == rewritten(data, a, c);
        let (a2, b2, c2) = choose|a: Seq<Seq<u8>>, b: Seq<Seq<u8>>, c: Seq<Seq<u8>>| #[trigger]
            dictionary(data, a, b, c) && r2 == rewritten(data, a, c);
        dictionary_is_unique(data, a1, b1, c1, a2, b2, c2);
    }
}

proof fn lemma_texty(data: Seq<u8>, i: int, step: int)
    requires
        i >= 0,
        step > 0,
    ensures
        i < data.len() ==> samples_from(data.len() as int, i, step) > 0,
        i >= data.len() ==> samples_from(data.len() as int, i, step) == 0,
        (forall|j: int|
            0 <= j < data.len() ==> #[trigger] data[j] == 10 || 32 <= data[j] <= 126) ==> textual_from(
            data,
            i,
            step,
        ) == samples_from(data.len() as int, i, step),
        (forall|j: int|
            0 <= j < data.len() ==> #[trigger] data[j] != 10 && !(32 <= data[j] <= 126))
            ==> textual_from(data, i, step) == 0,
    decreases data.len() + step - i,
{
    if i < data.len() {
        lemma_texty(data, i + step, step);
    }
}

/// Of 64 KiB or more, what consists of printable characters and line breaks is text, and
/// what has none of them is not.
pub proof fn texts_look_texty(data: Seq<u8>)
    requires
        data.len() > 0,
    ensures
        data.len() >= 65536 && (forall|j: int|
            0 <= j < data.len() ==> #[trigger] data[j] == 10 || 32 <= data[j] <= 126) ==> texty(data),
        (forall|j: int|
            0 <= j < data.len() ==> #[trigger] data[j] != 10 && !(32 <= data[j] <= 126)) ==> !texty(
            data,
        ),
        data.len() < 65536 ==> !texty(data),
{
    lemma_texty(data, 0, sample_step(data.len() as int));
}

/// A word is a longest run of ASCII letters and digits, taken with the space before it.
pub proof fn words_are_whole(data: Seq<u8>, i: int, j: int)
    requires
        0 <= i <= j <= data.len(),
        i < data.len(),
        forall|k: int|
            i < k < j ==> 48 <= #[trigger] data[k] <= 57 || 65 <= data[k] <= 90 || 97 <= data[k]
                <= 122,
        j < data.len() ==> !(48 <= data[j] <= 57 || 65 <= data[j] <= 90 || 97 <= data[j] <= 122),
    ensures
        48 <= data[i] <= 57 || 65 <= data[i] <= 90 || 97 <= data[i] <= 122 ==> run_stop(data, i)
            == j,
        data[i] == 32 && j > i + 1 ==> run_stop(data, i) == j,
        data[i] == 32 && j == i + 1 ==> run_stop(data, i) == i,
        data[i] != 32 && !(48 <= data[i] <= 57 || 65 <= data[i] <= 90 || 97 <= data[i] <= 122)
            ==> run_stop(data, i) == i,
{
    if word_byte(data[i]) {
        assert(j > i);
        lemma_word_runs(data, i, j);
    } else if j > i {
        if data[i] == 32 && j > i + 1 {
            assert(word_byte(data[i + 1]));
            lemma_word_runs(data, i + 1, j);
        }
    }
}

proof fn lemma_word_runs(data: Seq<u8>, i: int, j: int)
    requires
        0 <= i <= j <= data.len(),
        forall|k: int| i <= k < j ==> word_byte(#[trigger] data[k]),
        j < data.len() ==> !word_byte(data[j]),
    ensures
        word_stop(data, i) == j,
    decreases j - i,
{
    if i < j {
        assert(word_byte(data[i]));
        lemma_word_runs(data, i + 1, j);
    }
}

proof fn lemma_unused_all(data: Seq<u8>, b: int, v: u8)
    requires
        0 <= b <= v,
        !data.contains(v),
    ensures
        unused_from(data, b).contains(v),
    decreases v - b,
{
    let s = unused_from(data, b);
    if b == v {
        assert(s[0] == v);
    } else {
        lemma_unused_all(data, b + 1, v);
        let rest = unused_from(data, b + 1);
        let i = choose|i: int| 0 <= i < rest.len() && rest[i] == v;
        if data.contains(b as u8) {
        } else {
            assert(s[i + 1] == v);
        }
    }
}

/// Tokens are made of exactly the byte values that the input does not use, each once.
pub proof fn tokens_are_free(data: Seq<u8>, v: u8)
    ensures
        unused(data).contains(v) <==> !data.contains(v),
        unused(data).no_duplicates(),
{
    lemma_unused_from(data, 0);
    if !data.contains(v) {
        lemma_unused_all(data, 0, v);
    }
    if unused(data).contains(v) {
        let i = choose|i: int| 0 <= i < unused(data).len() && unused(data)[i] == v;
        assert(!data.contains(unused(data)[i]));
    }
}

/// The dictionary holds what pays: words of 3 to 40 bytes that occur at least 8 times,
/// as many as can be spelled, and none that saves less than one that was left out.
pub proof fn dictionary_holds_what_pays(
    data: Seq<u8>,
    ranked: Seq<Seq<u8>>,
    front: Seq<Seq<u8>>,
    words: Seq<Seq<u8>>,
    v: Seq<u8>,
    w: Seq<u8>,
)
    requires
        dictionary(data, ranked, front, words),
        words.contains(v),
        3 <= w.len() <= 40,
        occurrences(data, w) >= 8,
        (w.len() - 2) * occurrences(data, w) > 64,
        !words.contains(w),
    ensures
        3 <= v.len() <= 40,
        occurrences(data, v) >= 8,
        (v.len() - 2) * occurrences(data, v) >= (w.len() - 2) * occurrences(data, w),
        words.len() == alphabet(data).capacity(),
{
    let a = alphabet(data);
    let ns = a.singles.len() as int;
    let kept = ranked.take(sizing::min(ranked.len() as int, a.capacity()));
    let n = kept.len() as int;
    let head = sizing::min(n, 4 * ns);
    let cut = sizing::min(n, ns);
    mining::lemma_glue(front, kept, head);
    mining::lemma_glue_front(words, front, cut);
    order::lemma_permuted(kept, words);
    assert(eligible(data, w));
    assert(ranked.contains(w));
    assert(kept.contains(v));
    assert(!kept.contains(w));
    let i = choose|i: int| 0 <= i < kept.len() && kept[i] == v;
    let j = choose|j: int| 0 <= j < ranked.len() && ranked[j] == w;
    if j < n {
        assert(kept[j] == w);
    }
    assert(ranked[i] == v);
    assert(ranked.contains(v));
    assert(eligible(data, v));
    assert(outranks(data, 2, ranked[i], ranked[j]));
}

/// The transform is used where it helps: a text with at least 12 unused byte values and
/// 16 words worth a place is left alone only if it would not get smaller by a 32nd; and
/// whatever is transformed does get smaller by that.
pub proof fn the_transform_is_used_where_it_helps(
    data: Seq<u8>,
    r: Option<Seq<u8>>,
    ranked: Seq<Seq<u8>>,
    front: Seq<Seq<u8>>,
    words: Seq<Seq<u8>>,
)
    requires
        outcome(data, r),
        texty(data),
        unused(data).len() >= 12,
        dictionary(data, ranked, front, words),
        ranked.len() >= 16,
    ensures
        ({
            let t = transformed(data, words);
            &&& t.len() + t.len() / 32 < data.len() ==> r == Some(t)
            &&& t.len() + t.len() / 32 >= data.len() ==> r is None
        }),
{
    let (a1, b1, c1) = choose|a: Seq<Seq<u8>>, b: Seq<Seq<u8>>, c: Seq<Seq<u8>>| #[trigger]
        dictionary(data, a, b, c) && r == rewritten(data, a, c);
    dictionary_is_unique(data, a1, b1, c1, ranked, front, words);
}

/// Whatever is transformed gets smaller.
pub proof fn transformed_texts_are_smaller(data: Seq<u8>, t: Seq<u8>)
    requires
        outcome(data, Some(t)),
    ensures
        t.len() < data.len(),
        33 * t.len() < 32 * data.len() + 32,
{
}

// ---------------------------------------------------------------------------
// Tokenizing
// ---------------------------------------------------------------------------

/// `index` lists the words of the dictionary alphabetically, each with its place.
spec fn indexes(data: Seq<u8>, index: Seq<Entry>, words: Seq<Seq<u8>>) -> bool {
    &&& order::all_valid(data, index)
    &&& order::sorted(data, Key::Word, index)
    &&& forall|i: int|
        0 <= i < index.len() ==> (#[trigger] index[i]).num < words.len() && words[index[i].num as int]
            == order::word(data, index[i])
    &&& forall|k: int| 0 <= k < words.len() ==> listed(data, index, #[trigger] words[k])
}

/// `w` is the word of some entry.
spec fn listed(data: Seq<u8>, index: Seq<Entry>, w: Seq<u8>) -> bool {
    exists|i: int| 0 <= i < index.len() && #[trigger] order::word(data, index[i]) == w
}

/// Build the alphabetical index of a dictionary.
fn build_index(data: &[u8], words: &Vec<Entry>) -> (r: Vec<Entry>)
    requires
        order::all_valid(data@, words@),
    ensures
        indexes(data@, r@, order::words_of(data@, words@)),
{
    let ghost d = data@;
    let n: usize = words.len();
    let mut tagged: Vec<Entry> = Vec::new();
    let mut k: usize = 0;
    while k < n
        invariant
            k <= n == words@.len(),
            d == data@,
            order::all_valid(d, words@),
            tagged@.len() == k,
            forall|i: int|
                0 <= i < k ==> #[trigger] tagged@[i] == (Entry {
                    start: words@[i].start,
                    len: words@[i].len,
                    num: i as usize,
                }),
        decreases n - k,
    {
        assert(order::valid(d, words@[k as int]));
        tagged.push(Entry { start: words[k].start, len: words[k].len, num: k });
        k = k + 1;
    }
    assert(order::all_valid(d, tagged@)) by {
        assert forall|i: int| 0 <= i < n implies order::valid(d, #[trigger] tagged@[i]) by {
            assert(order::valid(d, words@[i]));
        }
    }
    let r = order::sort_range(data, Key::Word, &tagged, 0, n);
    proof {
        let ws = order::words_of(d, words@);
        assert(tagged@.subrange(0, n as int) =~= tagged@);
        order::lemma_permuted(tagged@, r@);
        assert forall|i: int| 0 <= i < r@.len() implies (#[trigger] r@[i]).num < ws.len()
            && ws[r@[i].num as int] == order::word(d, r@[i]) by {
            assert(r@.contains(r@[i]));
            assert(tagged@.contains(r@[i]));
        }
        assert forall|j: int| 0 <= j < ws.len() implies listed(d, r@, #[trigger] ws[j]) by {
            assert(tagged@.contains(tagged@[j]));
            assert(r@.contains(tagged@[j]));
            let i = choose|i: int| 0 <= i < r@.len() && r@[i] == tagged@[j];
            assert(order::word(d, r@[i]) == ws[j]);
        }
    }
    r
}

/// Place of the word `data[lo .. hi]` in the dictionary.
fn lookup(
    data: &[u8],
    index: &Vec<Entry>,
    lo: usize,
    hi: usize,
    Ghost(words): Ghost<Seq<Seq<u8>>>,
) -> (r: Option<usize>)
    requires
        lo <= hi <= data@.len(),
        indexes(data@, index@, words),
        words.no_duplicates(),
    ensures
        ({
            let w = data@.subrange(lo as int, hi as int);
            match r {
                Some(k) => words.contains(w) && k == words.index_of(w) && k < words.len(),
                None => !words.contains(w),
            }
        }),
{
    let len: usize = data.len();
    let ghost d = data@;
    let ghost w = d.subrange(lo as int, hi as int);
    let run = &data[lo..hi];
    let mut a: usize = 0;
    let mut b: usize = index.len();
    while a < b
        invariant
            len == data@.len(),
            d == data@,
            run@ == w,
            a <= b <= index@.len(),
            indexes(d, index@, words),
            forall|i: int| 0 <= i < a ==> !order::lex_le(w, #[trigger] order::word(d, index@[i])),
            forall|i: int|
                b <= i < index@.len() ==> order::lex_le(w, #[trigger] order::word(d, index@[i])),
        decreases b - a,
    {
        let mid: usize = a + (b - a) / 2;
        let e = index[mid];
        assert(order::valid(d, index@[mid as int]));
        if order::lex_at_most(run, &data[e.start..e.start + e.len]) {
            proof {
                assert forall|i: int| mid <= i < index@.len() implies order::lex_le(
                    w,
                    #[trigger] order::word(d, index@[i]),
                ) by {
                    if i > mid {
                        assert(order::ordered(d, Key::Word, index@[mid as int], index@[i]));
                        order::lemma_lex_transitive(
                            w,
                            order::word(d, index@[mid as int]),
                            order::word(d, index@[i]),
                        );
                    }
                }
            }
            b = mid;
        } else {
            proof {
                assert forall|i: int| 0 <= i <= mid implies !order::lex_le(
                    w,
                    #[trigger] order::word(d, index@[i]),
                ) by {
                    if i < mid && order::lex_le(w, order::word(d, index@[i])) {
                        assert(order::ordered(d, Key::Word, index@[i], index@[mid as int]));
                        order::lemma_lex_transitive(
                            w,
                            order::word(d, index@[i]),
                            order::word(d, index@[mid as int]),
                        );
                    }
                }
            }
            a = mid + 1;
        }
    }
    proof {
        order::lemma_lex_reflexive(w);
    }
    if a < index.len() {
        let e = index[a];
        assert(order::valid(d, index@[a as int]));
        if bytes::same_bytes(run, &data[e.start..e.start + e.len]) {
            assert(words[e.num as int] == w);
            assert(words.contains(w));
            return Some(e.num);
        }
    }
    assert(!words.contains(w)) by {
        if words.contains(w) {
            let k = choose|k: int| 0 <= k < words.len() && words[k] == w;
            assert(listed(d, index@, words[k]));
            let i = choose|i: int|
                0 <= i < index@.len() && #[trigger] order::word(d, index@[i]) == words[k];
            assert(order::lex_le(w, order::word(d, index@[i])));
            assert(i >= a);
            if i > a {
                assert(order::ordered(d, Key::Word, index@[a as int], index@[i]));
                order::lemma_lex_antisymmetric(w, order::word(d, index@[a as int]));
            }
        }
    }
    None
}

/// Append the token of word `k`.
fn push_token(out: &mut Vec<u8>, k: usize, singles: &[u8], leads: &[u8])
    requires
        k < singles@.len() + 256 * leads@.len(),
        leads@.len() <= 256,
    ensures
        final(out)@ == old(out)@ + (Alphabet { singles: singles@, leads: leads@ }).spell(k as int),
{
    let ghost was = out@;
    let n: usize = singles.len();
    if k < n {
        out.push(singles[k]);
    } else {
        let j: usize = k - n;
        out.push(leads[j / 256]);
        out.push((j % 256) as u8);
    }
    assert(out@ =~= was + (Alphabet { singles: singles@, leads: leads@ }).spell(k as int));
}

/// Append the tokenized text.
fn push_tokens(
    out: &mut Vec<u8>,
    data: &[u8],
    index: &Vec<Entry>,
    singles: &[u8],
    leads: &[u8],
    Ghost(words): Ghost<Seq<Seq<u8>>>,
)
    requires
        indexes(data@, index@, words),
        words.no_duplicates(),
        leads@.len() <= 256,
        words.len() <= singles@.len() + 256 * leads@.len(),
    ensures
        final(out)@ == old(out)@ + tokens(
            data@,
            0,
            words,
            (Alphabet { singles: singles@, leads: leads@ }),
        ),
{
    let n: usize = data.len();
    let ghost d = data@;
    let ghost al = Alphabet { singles: singles@, leads: leads@ };
    let ghost goal = out@ + tokens(d, 0, words, al);
    let mut i: usize = 0;
    while i < n
        invariant
            n == data@.len(),
            d == data@,
            i <= n,
            indexes(d, index@, words),
            words.no_duplicates(),
            leads@.len() <= 256,
            words.len() <= singles@.len() + 256 * leads@.len(),
            al == (Alphabet { singles: singles@, leads: leads@ }),
            out@ + tokens(d, i as int, words, al) == goal,
        decreases n - i,
    {
        proof {
            lemma_run_stop(d, i as int);
        }
        let j = mining::run_end(data, i);
        let ghost was = out@;
        let ghost run = d.subrange(i as int, j as int);
        let ghost next = following(d, i as int);
        let next_i: usize = if j > i {
            j
        } else {
            i + 1
        };
        if j <= i {
            out.push(data[i]);
            assert(out@ =~= was + piece(d, i as int, words, al));
        } else {
            let short = j - i <= MAX_WORD;
            let whole: Option<usize> = if short {
                lookup(data, index, i, j, Ghost(words))
            } else {
                None
            };
            match whole {
                Some(k) => {
                    push_token(out, k, singles, leads);
                },
                None => {
                    let bare: Option<usize> = if short && data[i] == 32 {
                        assert(run.drop_first() =~= d.subrange(i + 1, j as int));
                        lookup(data, index, i + 1, j, Ghost(words))
                    } else {
                        None
                    };
                    match bare {
                        Some(k) => {
                            out.push(32);
                            push_token(out, k, singles, leads);
                            assert(out@ =~= was + (seq![32u8] + al.spell(k as int)));
                        },
                        None => {
                            out.extend_from_slice(&data[i..j]);
                            assert(out@ =~= was + run);
                        },
                    }
                },
            }
            assert(out@ == was + piece(d, i as int, words, al));
        }
        assert(was + (piece(d, i as int, words, al) + tokens(d, next, words, al)) =~= out@ + tokens(
            d,
            next,
            words,
            al,
        ));
        i = next_i;
    }
    assert(out@ + Seq::<u8>::empty() =~= out@);
}

/// Append the dictionary entries.
fn push_entries(out: &mut Vec<u8>, data: &[u8], words: &Vec<Entry>)
    requires
        order::all_valid(data@, words@),
    ensures
        final(out)@ == old(out)@ + entries(
            order::words_of(data@, words@),
            words@.len() as int,
        ),
{
    let n: usize = data.len();
    let ghost was = out@;
    let ghost ws = order::words_of(data@, words@);
    let mut k: usize = 0;
    assert(was + entries(ws, 0) =~= was);
    while k < words.len()
        invariant
            n == data@.len(),
            k <= words@.len(),
            order::all_valid(data@, words@),
            ws == order::words_of(data@, words@),
            out@ == was + entries(ws, k as int),
        decreases words@.len() - k,
    {
        let e = words[k];
        assert(order::valid(data@, words@[k as int]));
        out.push(e.len as u8);
        out.extend_from_slice(&data[e.start..e.start + e.len]);
        assert(ws[k as int] == order::word(data@, e));
        assert(out@ =~= was + entries(ws, k + 1));
        k = k + 1;
    }
}

/// Apply the transform. Returns `None` when the input does not look like text, has
/// too few unused byte values or too little repetition, or does not get smaller.
#[verifier::rlimit(40)]
pub fn apply(data: &[u8]) -> (r: Option<Vec<u8>>)
    ensures
        outcome(data@, bytes::viewed(r)),
        r matches Some(t) ==> inverse(t@) == Some(data@),
{
    if !mining::looks_texty(data) {
        return None;
    }
    let ghost d = data@;
    let free = mining::unused_bytes(data);
    let u: usize = free.len();
    if u < 12 {
        return None;
    }
    proof {
        lemma_alphabet(d);
    }
    let ghost al = alphabet(d);
    let most: usize = if u > 40 && u - 40 > u / 3 {
        u - 40
    } else {
        u / 3
    };
    let ns: usize = if most < MAX_SINGLE {
        most
    } else {
        MAX_SINGLE
    };
    let nl: usize = if u - ns < MAX_LEAD {
        u - ns
    } else {
        MAX_LEAD
    };
    assert(ns == single_count(u as int) && nl == lead_count(u as int));
    let all = mining::collect(data);
    let ordered = order::sort_range(data, Key::Word, &all, 0, all.len());
    proof {
        assert(all@.subrange(0, all@.len() as int) =~= all@);
        order::lemma_words_permute(d, all@, ordered@);
    }
    let cands = mining::tally(data, &ordered);
    let words = mining::choose_words(data, &cands, ns, ns + nl * 256);
    let ghost ws = order::words_of(d, words@);
    let ghost (ranked, front) = choose|ranked: Seq<Seq<u8>>, front: Seq<Seq<u8>>|
        ranked.len() == cands@.len() && #[trigger] dictionary(d, ranked, front, ws);
    if cands.len() < 16 {
        assert(dictionary(d, ranked, front, ws));
        return None;
    }
    let index = build_index(data, &words);
    let singles = &free[0..ns];
    let leads = &free[ns..ns + nl];
    assert(singles@ =~= al.singles);
    assert(leads@ =~= al.leads);
    let mut out: Vec<u8> = Vec::new();
    out.push(1);
    out.push(ns as u8);
    out.push(nl as u8);
    out.extend_from_slice(singles);
    out.extend_from_slice(leads);
    bytes::push_le(&mut out, words.len() as u64, 4);
    push_entries(&mut out, data, &words);
    assert(out@ =~= header(ws, al));
    push_tokens(&mut out, data, &index, singles, leads, Ghost(ws));
    assert(out@ == transformed(d, ws));
    assert(dictionary(d, ranked, front, ws));
    proof {
        assert forall|i: int| 0 <= i < ws.len() implies (#[trigger] ws[i]).len() <= 255 by {
            assert(order::valid(d, words@[i]));
        }
        invert_undoes_apply(d, ws);
    }
    let len: usize = out.len();
    if len / 32 < data.len() && len < data.len() - len / 32 {
        Some(out)
    } else {
        None
    }
}

// ---------------------------------------------------------------------------
// Undoing
// ---------------------------------------------------------------------------

/// For each byte value its last place in `s`.
fn place_map(s: &[u8]) -> (r: [Option<usize>; 256])
    requires
        s@.len() <= 256,
    ensures
        forall|b: int|
            0 <= b < 256 ==> match #[trigger] r@[b] {
                Some(k) => last_place(s@, b as u8) == Some(k as int) && k < s@.len(),
                None => last_place(s@, b as u8) is None,
            },
{
    let mut r: [Option<usize>; 256] = [None;256];
    let mut k: usize = 0;
    assert(s@.take(0) =~= Seq::empty());
    while k < s.len()
        invariant
            k <= s@.len(),
            forall|b: int|
                0 <= b < 256 ==> match #[trigger] r@[b] {
                    Some(j) => last_place(s@.take(k as int), b as u8) == Some(j as int) && j < k,
                    None => last_place(s@.take(k as int), b as u8) is None,
                },
        decreases s@.len() - k,
    {
        r[s[k] as usize] = Some(k);
        assert(s@.take(k + 1).drop_last() =~= s@.take(k as int));
        k = k + 1;
    }
    assert(s@.take(s@.len() as int) =~= s@);
    r
}

/// The dictionary that starts at `at`, as slices of `t`, and where it ends.
fn read_words<'a>(t: &'a [u8], at: usize, count: u64) -> (r: Option<(Vec<&'a [u8]>, usize)>)
    requires
        at <= t@.len(),
    ensures
        match r {
            Some((ws, p)) => {
                &&& p <= t@.len()
                &&& read_entries(t@.skip(at as int), count as int) == Some(
                    (ws@.map_values(|w: &[u8]| w@), t@.skip(p as int)),
                )
            },
            None => read_entries(t@.skip(at as int), count as int) is None,
        },
{
    let n: usize = t.len();
    let ghost whole = read_entries(t@.skip(at as int), count as int);
    let mut ws: Vec<&'a [u8]> = Vec::new();
    let mut p: usize = at;
    let mut i: u64 = 0;
    proof {
        let none = ws@.map_values(|w: &[u8]| w@);
        match whole {
            Some((x, rest)) => {
                assert(none + x =~= x);
            },
            None => {},
        }
    }
    while i < count
        invariant
            n == t@.len(),
            p <= n,
            i <= count,
            whole == read_entries(t@.skip(at as int), count as int),
            whole == (match read_entries(t@.skip(p as int), count - i) {
                Some((x, rest)) => Some((ws@.map_values(|w: &[u8]| w@) + x, rest)),
                None => None,
            }),
        decreases count - i,
    {
        let ghost s = t@.skip(p as int);
        if p >= n {
            return None;
        }
        let len: usize = t[p] as usize;
        assert(s[0] == len);
        if len > n - p - 1 {
            return None;
        }
        let ghost was = ws@.map_values(|w: &[u8]| w@);
        ws.push(&t[p + 1..p + 1 + len]);
        proof {
            assert(s.skip(1 + len) =~= t@.skip(p + 1 + len));
            assert(s.subrange(1, 1 + len) =~= t@.subrange(p + 1, p + 1 + len));
            let now = ws@.map_values(|w: &[u8]| w@);
            assert(now =~= was.push(s.subrange(1, 1 + len)));
            match read_entries(s.skip(1 + len), count - i - 1) {
                Some((x, rest)) => {
                    assert(was + (seq![s.subrange(1, 1 + len)] + x) =~= now + x);
                },
                None => {},
            }
        }
        p = p + 1 + len;
        i = i + 1;
    }
    proof {
        let all = ws@.map_values(|w: &[u8]| w@);
        assert(all + Seq::<Seq<u8>>::empty() =~= all);
    }
    Some((ws, p))
}

/// Exactly invert [`apply`]; `None` if `t` is malformed.
pub fn invert(t: &[u8]) -> (r: Option<Vec<u8>>)
    ensures
        bytes::viewed(r) == inverse(t@),
{
    let n: usize = t.len();
    if n < 7 || t[0] != 1 {
        return None;
    }
    let ns: usize = t[1] as usize;
    let nl: usize = t[2] as usize;
    if n < 7 + ns + nl {
        return None;
    }
    let singles = &t[3..3 + ns];
    let leads = &t[3 + ns..3 + ns + nl];
    let count: u64 = bytes::read_le(t, 3 + ns + nl, 4);
    let (words, at) = match read_words(t, 7 + ns + nl, count) {
        Some(x) => x,
        None => {
            return None;
        },
    };
    let ghost ws = words@.map_values(|w: &[u8]| w@);
    let ghost al = Alphabet { singles: singles@, leads: leads@ };
    let single_map = place_map(singles);
    let lead_map = place_map(leads);
    let mut out: Vec<u8> = Vec::new();
    let mut p: usize = at;
    let ghost whole = untokenized(t@.skip(at as int), ws, al);
    proof {
        match whole {
            Some(x) => {
                assert(out@ + x =~= x);
            },
            None => {},
        }
    }
    while p < n
        invariant
            n == t@.len(),
            p <= n,
            ns <= 255,
            nl <= 255,
            al.singles.len() == ns,
            al.leads.len() == nl,
            ws == words@.map_values(|w: &[u8]| w@),
            inverse(t@) == whole,
            whole == prepend(out@, untokenized(t@.skip(p as int), ws, al)),
            forall|b: int|
                0 <= b < 256 ==> match #[trigger] single_map@[b] {
                    Some(k) => last_place(al.singles, b as u8) == Some(k as int) && k < ns,
                    None => last_place(al.singles, b as u8) is None,
                },
            forall|b: int|
                0 <= b < 256 ==> match #[trigger] lead_map@[b] {
                    Some(k) => last_place(al.leads, b as u8) == Some(k as int) && k < nl,
                    None => last_place(al.leads, b as u8) is None,
                },
        decreases n - p,
    {
        let ghost s = t@.skip(p as int);
        let ghost was = out@;
        let b = t[p];
        assert(s[0] == b);
        assert(s.skip(1) =~= t@.skip(p + 1));
        if let Some(k) = single_map[b as usize] {
            if k >= words.len() {
                return None;
            }
            out.extend_from_slice(words[k]);
            proof {
                lemma_prepend(was, ws[k as int], untokenized(s.skip(1), ws, al));
            }
            p = p + 1;
        } else if let Some(k) = lead_map[b as usize] {
            if p + 1 >= n {
                return None;
            }
            assert(s[1] == t@[p + 1]);
            assert(s.skip(2) =~= t@.skip(p + 2));
            let j: usize = ns + k * 256 + t[p + 1] as usize;
            if j >= words.len() {
                return None;
            }
            out.extend_from_slice(words[j]);
            proof {
                lemma_prepend(was, ws[j as int], untokenized(s.skip(2), ws, al));
            }
            p = p + 2;
        } else {
            out.push(b);
            proof {
                lemma_prepend(was, seq![b], untokenized(s.skip(1), ws, al));
                assert(out@ =~= was + seq![b]);
            }
            p = p + 1;
        }
    }
    assert(t@.skip(n as int) =~= Seq::empty());
    assert(out@ + Seq::<u8>::empty() =~= out@);
    Some(out)
}

proof fn lemma_prepend(a: Seq<u8>, b: Seq<u8>, r: Option<Seq<u8>>)
    ensures
        prepend(a, prepend(b, r)) == prepend(a + b, r),
{
    match r {
        Some(s) => {
            assert(a + (b + s) =~= a + b + s);
        },
        None => {},
    }
}

} // verus!
