use vstd::prelude::*;

verus! {

/// Unicode `White_Space`: the characters that end a player token.
pub open spec fn is_space(c: char) -> bool {
    let u = c as u32;
    (9 <= u <= 13) || u == 32 || u == 0x85 || u == 0xa0 || u == 0x1680 || (0x2000 <= u <= 0x200a)
        || u == 0x2028 || u == 0x2029 || u == 0x202f || u == 0x205f || u == 0x3000
}

pub open spec fn is_digit(c: char) -> bool {
    48 <= (c as u32) <= 57
}

/// `"player "`
pub open spec fn player_word() -> Seq<char> {
    seq!['p', 'l', 'a', 'y', 'e', 'r', ' ']
}

/// `" got score "`
pub open spec fn score_word() -> Seq<char> {
    seq![' ', 'g', 'o', 't', ' ', 's', 'c', 'o', 'r', 'e', ' ']
}

/// `t` holds `w` starting at position `i`.
pub open spec fn word_at(t: Seq<char>, i: int, w: Seq<char>) -> bool {
    0 <= i && i + w.len() <= t.len() && t.subrange(i, i + w.len()) == w
}

/// End of the longest run of non-space characters that starts at `i`.
pub open spec fn token_end(t: Seq<char>, i: int) -> int
    decreases t.len() - i,
{
    if 0 <= i < t.len() && !is_space(t[i]) {
        token_end(t, i + 1)
    } else {
        i
    }
}

/// End of the longest run of digits that starts at `i`.
pub open spec fn digits_end(t: Seq<char>, i: int) -> int
    decreases t.len() - i,
{
    if 0 <= i < t.len() && is_digit(t[i]) {
        digits_end(t, i + 1)
    } else {
        i
    }
}

/// A score line starts at `i`: `player`, a space, a token without spaces,
/// then ` got score `.
pub open spec fn line_at(t: Seq<char>, i: int) -> bool {
    word_at(t, i, player_word()) && word_at(t, token_end(t, i + 7), score_word())
}

/// Where the digits of the score line at `i` start.
pub open spec fn capture_start(t: Seq<char>, i: int) -> int {
    token_end(t, i + 7) + 11
}

/// The digit runs of the score lines found scanning `t` from position `i`:
/// the leftmost line first, each search resuming where the last line's
/// digits end.
pub open spec fn captures_from(t: Seq<char>, i: int) -> Seq<Seq<char>>
    decreases t.len() - i,
    via captures_from_decreases
{
    if i < 0 || i >= t.len() {
        seq![]
    } else if line_at(t, i) {
        let s = capture_start(t, i);
        let e = digits_end(t, s);
        seq![t.subrange(s, e)] + captures_from(t, e)
    } else {
        captures_from(t, i + 1)
    }
}

#[via_fn]
proof fn captures_from_decreases(t: Seq<char>, i: int) {
    if 0 <= i < t.len() && line_at(t, i) {
        lemma_token_end_bounds(t, i + 7);
        lemma_digits_end_bounds(t, capture_start(t, i));
    }
}

/// The scores reported in `text`, in order of appearance.
pub open spec fn captures_of(text: Seq<char>) -> Seq<Seq<char>> {
    captures_from(text, 0)
}

proof fn lemma_token_end_bounds(t: Seq<char>, i: int)
    ensures
        token_end(t, i) >= i,
        0 <= i <= t.len() ==> token_end(t, i) <= t.len(),
        forall|j: int| i <= j < token_end(t, i) ==> !is_space(#[trigger] t[j]),
    decreases t.len() - i,
{
    if 0 <= i < t.len() && !is_space(t[i]) {
        lemma_token_end_bounds(t, i + 1);
    }
}

proof fn lemma_digits_end_bounds(t: Seq<char>, i: int)
    ensures
        digits_end(t, i) >= i,
        0 <= i <= t.len() ==> digits_end(t, i) <= t.len(),
        forall|j: int| i <= j < digits_end(t, i) ==> is_digit(#[trigger] t[j]),
    decreases t.len() - i,
{
    if 0 <= i < t.len() && is_digit(t[i]) {
        lemma_digits_end_bounds(t, i + 1);
    }
}

fn is_space_char(c: char) -> (r: bool)
    ensures
        r == is_space(c),
{
    let u = c as u32;
    (9 <= u && u <= 13) || u == 32 || u == 0x85 || u == 0xa0 || u == 0x1680 || (0x2000 <= u && u
        <= 0x200a) || u == 0x2028 || u == 0x2029 || u == 0x202f || u == 0x205f || u == 0x3000
}

fn is_digit_char(c: char) -> (r: bool)
    ensures
        r == is_digit(c),
{
    let u = c as u32;
    48 <= u && u <= 57
}

fn word_at_exec(t: &[char], i: usize, w: &[char]) -> (r: bool)
    ensures
        r == word_at(t@, i as int, w@),
{
    if i > t.len() || w.len() > t.len() - i {
        return false;
    }
    let mut k: usize = 0;
    while k < w.len()
        invariant
            i + w@.len() <= t.len(),
            0 <= k <= w@.len(),
            forall|j: int| 0 <= j < k ==> t@[i + j] == w@[j],
        decreases w@.len() - k,
    {
        if t[i + k] != w[k] {
            assert(t@.subrange(i as int, i + w@.len())[k as int] != w@[k as int]);
            return false;
        }
        k = k + 1;
    }
    assert(t@.subrange(i as int, i + w@.len()) =~= w@);
    true
}

fn token_end_exec(t: &[char], i: usize) -> (r: usize)
    requires
        i <= t@.len(),
    ensures
        r == token_end(t@, i as int),
{
    let mut j: usize = i;
    while j < t.len() && !is_space_char(t[j])
        invariant
            i <= j <= t@.len(),
            token_end(t@, j as int) == token_end(t@, i as int),
        decreases t@.len() - j,
    {
        j = j + 1;
    }
    j
}

fn digits_end_exec(t: &[char], i: usize) -> (r: usize)
    requires
        i <= t@.len(),
    ensures
        r == digits_end(t@, i as int),
{
    let mut j: usize = i;
    while j < t.len() && is_digit_char(t[j])
        invariant
            i <= j <= t@.len(),
            digits_end(t@, j as int) == digits_end(t@, i as int),
        decreases t@.len() - j,
    {
        j = j + 1;
    }
    j
}

fn copy_range(t: &[char], s: usize, e: usize) -> (r: Vec<char>)
    requires
        s <= e <= t@.len(),
    ensures
        r@ == t@.subrange(s as int, e as int),
{
    let mut out: Vec<char> = Vec::new();
    let mut k: usize = s;
    while k < e
        invariant
            s <= k <= e <= t@.len(),
            out@ =~= t@.subrange(s as int, k as int),
        decreases e - k,
    {
        out.push(t[k]);
        k = k + 1;
    }
    out
}

/// The digit runs of every score line of `text`, in order of appearance,
/// whatever token names the player.
pub fn score_captures(text: &[char]) -> (r: Vec<Vec<char>>)
    ensures
        r.deep_view() == captures_of(text@),
{
    let player: Vec<char> = vec!['p', 'l', 'a', 'y', 'e', 'r', ' '];
    let score: Vec<char> = vec![' ', 'g', 'o', 't', ' ', 's', 'c', 'o', 'r', 'e', ' '];
    assert(player@ =~= player_word());
    assert(score@ =~= score_word());
    let mut out: Vec<Vec<char>> = Vec::new();
    let mut i: usize = 0;
    while i < text.len()
        invariant
            player@ == player_word(),
            score@ == score_word(),
            0 <= i <= text@.len(),
            captures_of(text@) =~= out.deep_view() + captures_from(text@, i as int),
        decreases text@.len() - i,
    {
        let ghost t = text@;
        if word_at_exec(text, i, player.as_slice()) {
            let te = token_end_exec(text, i + 7);
            proof {
                lemma_token_end_bounds(t, i + 7);
            }
            if word_at_exec(text, te, score.as_slice()) {
                let s = te + 11;
                let e = digits_end_exec(text, s);
                proof {
                    lemma_digits_end_bounds(t, s as int);
                }
                let cap = copy_range(text, s, e);
                proof {
                    assert(captures_from(t, i as int) == seq![t.subrange(s as int, e as int)]
                        + captures_from(t, e as int));
                }
                let ghost before = out.deep_view();
                proof {
                    assert(cap.deep_view() =~= cap@);
                }
                out.push(cap);
                proof {
                    assert(out.deep_view() =~= before + seq![t.subrange(s as int, e as int)]);
                }
                i = e;
                continue;
            }
        }
        i = i + 1;
    }
    assert(captures_from(text@, i as int) =~= Seq::<Seq<char>>::empty());
    out
}

/// The number that a run of decimal digits spells.
pub open spec fn decimal_value(s: Seq<char>) -> nat
    decreases s.len(),
{
    if s.len() == 0 {
        0
    } else {
        decimal_value(s.drop_last()) * 10 + ((s.last() as u32) - 48) as nat
    }
}

/// The score that a captured digit run stands for: `None` when it is empty,
/// holds something other than a digit, or exceeds `u32::MAX`.
pub open spec fn score_value(s: Seq<char>) -> Option<u32> {
    if s.len() > 0 && (forall|j: int| 0 <= j < s.len() ==> is_digit(#[trigger] s[j]))
        && decimal_value(s) <= u32::MAX {
        Some(decimal_value(s) as u32)
    } else {
        None
    }
}

/// Whether every capture reads as a score and there are at most four.
pub open spec fn scores_readable(caps: Seq<Seq<char>>) -> bool {
    caps.len() <= 4 && forall|k: int| 0 <= k < caps.len() ==> (#[trigger] score_value(caps[k])) is Some
}

/// The score of player slot `k`: the `k`-th capture, or zero where there are
/// fewer captures than slots.
pub open spec fn slot_score(caps: Seq<Seq<char>>, k: int) -> u32 {
    if k < caps.len() {
        score_value(caps[k])->Some_0
    } else {
        0
    }
}

proof fn lemma_decimal_value_grows(s: Seq<char>, n: int)
    requires
        0 <= n <= s.len(),
    ensures
        decimal_value(s.take(n)) <= decimal_value(s),
    decreases s.len() - n,
{
    if n < s.len() {
        lemma_decimal_value_grows(s, n + 1);
        assert(s.take(n + 1).drop_last() =~= s.take(n));
    } else {
        assert(s.take(n) =~= s);
    }
}

/// Reads a captured digit run as a score.
pub fn parse_score(digits: &[char]) -> (r: Option<u32>)
    ensures
        r == score_value(digits@),
{
    if digits.len() == 0 {
        return None;
    }
    let mut acc: u64 = 0;
    let mut k: usize = 0;
    while k < digits.len()
        invariant
            0 <= k <= digits@.len(),
            acc == decimal_value(digits@.take(k as int)),
            acc <= u32::MAX,
            forall|j: int| 0 <= j < k ==> is_digit(#[trigger] digits@[j]),
        decreases digits@.len() - k,
    {
        let c = digits[k];
        if !is_digit_char(c) {
            return None;
        }
        proof {
            assert(digits@.take(k + 1).drop_last() =~= digits@.take(k as int));
        }
        acc = acc * 10 + (c as u32 - 48) as u64;
        if acc > u32::MAX as u64 {
            proof {
                lemma_decimal_value_grows(digits@, k + 1);
            }
            return None;
        }
        k = k + 1;
    }
    proof {
        assert(digits@.take(k as int) =~= digits@);
    }
    Some(acc as u32)
}

/// The four player scores that `text` reports, slot by slot in order of
/// appearance, missing slots zero; `None` when a capture does not read as a
/// score or more than four score lines appear.
pub fn parse_scores(text: &[char]) -> (r: Option<[u32; 4]>)
    ensures
        r is Some <==> scores_readable(captures_of(text@)),
        r is Some ==> forall|k: int|
            0 <= k < 4 ==> (#[trigger] r->Some_0@[k]) == slot_score(captures_of(text@), k),
{
    let caps = score_captures(text);
    let ghost cs = captures_of(text@);
    if caps.len() > 4 {
        return None;
    }
    let mut vals: Vec<u32> = Vec::new();
    let mut k: usize = 0;
    while k < caps.len()
        invariant
            caps.deep_view() == cs,
            cs == captures_of(text@),
            0 <= k <= caps@.len() <= 4,
            vals@.len() == k,
            forall|j: int| 0 <= j < k ==> (#[trigger] score_value(cs[j])) == Some(vals@[j]),
        decreases caps@.len() - k,
    {
        proof {
            assert(caps@[k as int]@ =~= cs[k as int]);
        }
        match parse_score(caps[k].as_slice()) {
            Some(v) => vals.push(v),
            None => {
                assert(score_value(cs[k as int]) is None);
                return None;
            },
        }
        k = k + 1;
    }
    let n = vals.len();
    let p = [
        if 0 < n { vals[0] } else { 0 },
        if 1 < n { vals[1] } else { 0 },
        if 2 < n { vals[2] } else { 0 },
        if 3 < n { vals[3] } else { 0 },
    ];
    assert(forall|k: int| 0 <= k < 4 ==> p@[k] == slot_score(cs, k));
    Some(p)
}

proof fn lemma_token_end_run(t: Seq<char>, i: int, e: int)
    requires
        0 <= i <= e <= t.len(),
        forall|j: int| i <= j < e ==> !is_space(#[trigger] t[j]),
        e == t.len() || is_space(t[e]),
    ensures
        token_end(t, i) == e,
    decreases e - i,
{
    if i < e {
        lemma_token_end_run(t, i + 1, e);
    }
}

proof fn lemma_digits_end_run(t: Seq<char>, i: int, e: int)
    requires
        0 <= i <= e <= t.len(),
        forall|j: int| i <= j < e ==> is_digit(#[trigger] t[j]),
        e == t.len() || !is_digit(t[e]),
    ensures
        digits_end(t, i) == e,
    decreases e - i,
{
    if i < e {
        lemma_digits_end_run(t, i + 1, e);
    }
}

proof fn lemma_token_end_shift(p: Seq<char>, t: Seq<char>, i: int)
    requires
        0 <= i,
    ensures
        token_end(p + t, p.len() + i) == p.len() + token_end(t, i),
    decreases t.len() - i,
{
    if i < t.len() {
        assert((p + t)[p.len() + i] == t[i]);
        if !is_space(t[i]) {
            lemma_token_end_shift(p, t, i + 1);
        }
    }
}

proof fn lemma_digits_end_shift(p: Seq<char>, t: Seq<char>, i: int)
    requires
        0 <= i,
    ensures
        digits_end(p + t, p.len() + i) == p.len() + digits_end(t, i),
    decreases t.len() - i,
{
    if i < t.len() {
        assert((p + t)[p.len() + i] == t[i]);
        if is_digit(t[i]) {
            lemma_digits_end_shift(p, t, i + 1);
        }
    }
}

proof fn lemma_word_at_shift(p: Seq<char>, t: Seq<char>, i: int, w: Seq<char>)
    requires
        0 <= i,
    ensures
        word_at(p + t, p.len() + i, w) == word_at(t, i, w),
{
    if i + w.len() <= t.len() {
        assert((p + t).subrange(p.len() + i, p.len() + i + w.len()) =~= t.subrange(i, i + w.len()));
    }
}

proof fn lemma_captures_shift(p: Seq<char>, t: Seq<char>, i: int)
    requires
        0 <= i,
    ensures
        captures_from(p + t, p.len() + i) == captures_from(t, i),
    decreases t.len() - i,
{
    let q = p + t;
    if i < t.len() {
        lemma_word_at_shift(p, t, i, player_word());
        lemma_token_end_shift(p, t, i + 7);
        lemma_token_end_bounds(t, i + 7);
        let te = token_end(t, i + 7);
        lemma_word_at_shift(p, t, te, score_word());
        assert(line_at(q, p.len() + i) == line_at(t, i));
        if line_at(t, i) {
            let s = capture_start(t, i);
            lemma_digits_end_shift(p, t, s);
            lemma_digits_end_bounds(t, s);
            let e = digits_end(t, s);
            assert(q.subrange(p.len() + s, p.len() + e) =~= t.subrange(s, e));
            lemma_captures_shift(p, t, e);
        } else {
            lemma_captures_shift(p, t, i + 1);
        }
    }
}

/// A score line: `player`, a space, the token, ` got score `, the digits.
pub open spec fn score_line(token: Seq<char>, digits: Seq<char>) -> Seq<char> {
    player_word() + token + score_word() + digits
}

/// Scores come out in the order their lines appear, whatever token names
/// the player: a text that opens with a score line yields that line's
/// digits, then the scores of the text after it.
pub proof fn lemma_scan_order(token: Seq<char>, digits: Seq<char>, rest: Seq<char>)
    requires
        forall|j: int| 0 <= j < token.len() ==> !is_space(#[trigger] token[j]),
        forall|j: int| 0 <= j < digits.len() ==> is_digit(#[trigger] digits[j]),
        rest.len() == 0 || !is_digit(rest[0]),
    ensures
        captures_of(score_line(token, digits) + rest) == seq![digits] + captures_of(rest),
{
    let pre = score_line(token, digits);
    let t = pre + rest;
    let tl = token.len() as int;
    let dl = digits.len() as int;
    assert(pre.len() == 7 + tl + 11 + dl);
    assert(t.subrange(0, 7) =~= player_word());
    assert forall|j: int| 7 <= j < 7 + tl implies !is_space(#[trigger] t[j]) by {
        assert(t[j] == token[j - 7]);
    }
    assert(t[7 + tl] == ' ');
    lemma_token_end_run(t, 7, 7 + tl);
    assert(t.subrange(7 + tl, 7 + tl + 11) =~= score_word());
    assert(line_at(t, 0));
    let s = 7 + tl + 11;
    assert forall|j: int| s <= j < s + dl implies is_digit(#[trigger] t[j]) by {
        assert(t[j] == digits[j - s]);
    }
    if rest.len() > 0 {
        assert(t[s + dl] == rest[0]);
    }
    lemma_digits_end_run(t, s, s + dl);
    assert(t.subrange(s, s + dl) =~= digits);
    lemma_captures_shift(pre, rest, 0);
}

} // verus!
