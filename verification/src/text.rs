//! Character-level string helpers shared by the parsers: ASCII case folding,
//! Unicode whitespace trimming, splitting, searching and joining.
//!
//! Strings are modelled by their view, a `Seq<char>`; the executable helpers
//! work on `Vec<char>` copies and build `String`s back from them.
use vstd::prelude::*;

verus! {

/// Unicode `White_Space` (the set `char::is_whitespace` and `str::trim` use).
pub open spec fn is_space(c: char) -> bool {
    let u = c as u32;
    ||| 0x9 <= u <= 0xD
    ||| u == 0x20
    ||| u == 0x85
    ||| u == 0xA0
    ||| u == 0x1680
    ||| 0x2000 <= u <= 0x200A
    ||| u == 0x2028
    ||| u == 0x2029
    ||| u == 0x202F
    ||| u == 0x205F
    ||| u == 0x3000
}

/// ASCII lower-casing of one character; every other character is kept.
pub open spec fn lower_char(c: char) -> char {
    if 'A' <= c <= 'Z' {
        ((c as u32) + 32) as char
    } else {
        c
    }
}

/// ASCII upper-casing of one character; every other character is kept.
pub open spec fn upper_char(c: char) -> char {
    if 'a' <= c <= 'z' {
        ((c as u32) - 32) as char
    } else {
        c
    }
}

/// `str::to_ascii_lowercase`.
pub open spec fn lower_seq(s: Seq<char>) -> Seq<char> {
    Seq::new(s.len(), |i: int| lower_char(s[i]))
}

/// `str::to_ascii_uppercase`.
pub open spec fn upper_seq(s: Seq<char>) -> Seq<char> {
    Seq::new(s.len(), |i: int| upper_char(s[i]))
}

/// `str::trim_start`: drops leading whitespace.
pub open spec fn trim_start(s: Seq<char>) -> Seq<char>
    decreases s.len(),
{
    if s.len() > 0 && is_space(s[0]) {
        trim_start(s.drop_first())
    } else {
        s
    }
}

/// `str::trim_end`: drops trailing whitespace.
pub open spec fn trim_end(s: Seq<char>) -> Seq<char>
    decreases s.len(),
{
    if s.len() > 0 && is_space(s.last()) {
        trim_end(s.drop_last())
    } else {
        s
    }
}

/// `str::trim`.
pub open spec fn trim(s: Seq<char>) -> Seq<char> {
    trim_end(trim_start(s))
}

/// `str::split(sep)` as a sequence of pieces: always at least one piece,
/// an empty piece on each side of every separator that has nothing there.
pub open spec fn split_on(s: Seq<char>, sep: char) -> Seq<Seq<char>>
    decreases s.len(),
{
    if s.len() == 0 {
        seq![Seq::<char>::empty()]
    } else {
        let rest = split_on(s.drop_first(), sep);
        if s[0] == sep {
            seq![Seq::<char>::empty()] + rest
        } else {
            rest.update(0, seq![s[0]] + rest[0])
        }
    }
}

/// `needle` occurs in `hay` at position `i`.
pub open spec fn occurs_at(hay: Seq<char>, needle: Seq<char>, i: int) -> bool {
    0 <= i && i + needle.len() <= hay.len() && hay.subrange(i, i + needle.len()) == needle
}

/// `str::contains` for a string pattern.
pub open spec fn contains_seq(hay: Seq<char>, needle: Seq<char>) -> bool {
    exists|i: int| occurs_at(hay, needle, i)
}

/// Whether `c` is Unicode whitespace.
pub fn is_space_char(c: char) -> (r: bool)
    ensures
        r == is_space(c),
{
    let u = c as u32;
    (0x9 <= u && u <= 0xD) || u == 0x20 || u == 0x85 || u == 0xA0 || u == 0x1680 || (0x2000 <= u
        && u <= 0x200A) || u == 0x2028 || u == 0x2029 || u == 0x202F || u == 0x205F || u == 0x3000
}

pub fn lower(c: char) -> (r: char)
    ensures
        r == lower_char(c),
{
    if 'A' <= c && c <= 'Z' {
        ((c as u8) + 32) as char
    } else {
        c
    }
}

pub fn upper(c: char) -> (r: char)
    ensures
        r == upper_char(c),
{
    if 'a' <= c && c <= 'z' {
        ((c as u8) - 32) as char
    } else {
        c
    }
}

/// Appends one character to a `String` (`String::push`).
#[verifier::external_body]
fn push_char(s: &mut String, c: char)
    ensures
        final(s)@ == old(s)@.push(c),
{
    s.push(c);
}

/// The characters of a string, in order.
pub fn chars_of(s: &str) -> (v: Vec<char>)
    ensures
        v@ == s@,
{
    let mut v: Vec<char> = Vec::new();
    for c in it: s.chars()
        invariant
            v@ == it.seq().take(it.index() as int),
    {
        v.push(c);
    }
    v
}

/// A `String` holding exactly these characters.
pub fn string_of(v: &Vec<char>) -> (s: String)
    ensures
        s@ == v@,
{
    let mut s = String::new();
    let mut i: usize = 0;
    while i < v.len()
        invariant
            i <= v.len(),
            s@ == v@.take(i as int),
        decreases v.len() - i,
    {
        push_char(&mut s, v[i]);
        assert(v@.take(i as int).push(v@[i as int]) =~= v@.take(i + 1));
        i = i + 1;
    }
    assert(v@.take(v.len() as int) =~= v@);
    s
}

/// The ASCII-lowercased copy of `v`.
pub fn lower_chars(v: &Vec<char>) -> (r: Vec<char>)
    ensures
        r@ == lower_seq(v@),
{
    let mut r: Vec<char> = Vec::new();
    let mut i: usize = 0;
    while i < v.len()
        invariant
            i <= v.len(),
            r@ =~= lower_seq(v@.take(i as int)),
        decreases v.len() - i,
    {
        r.push(lower(v[i]));
        i = i + 1;
    }
    assert(v@.take(v.len() as int) =~= v@);
    r
}

/// The ASCII-uppercased copy of `v`.
pub fn upper_chars(v: &Vec<char>) -> (r: Vec<char>)
    ensures
        r@ == upper_seq(v@),
{
    let mut r: Vec<char> = Vec::new();
    let mut i: usize = 0;
    while i < v.len()
        invariant
            i <= v.len(),
            r@ =~= upper_seq(v@.take(i as int)),
        decreases v.len() - i,
    {
        r.push(upper(v[i]));
        i = i + 1;
    }
    assert(v@.take(v.len() as int) =~= v@);
    r
}

/// The ASCII-lowercased copy of a string.
pub fn to_lower(s: &str) -> (r: String)
    ensures
        r@ == lower_seq(s@),
{
    let v = chars_of(s);
    let l = lower_chars(&v);
    string_of(&l)
}

proof fn lemma_trim_start_skip(s: Seq<char>, i: int)
    requires
        0 <= i <= s.len(),
        forall|j: int| 0 <= j < i ==> is_space(#[trigger] s[j]),
    ensures
        trim_start(s) == trim_start(s.subrange(i, s.len() as int)),
    decreases i,
{
    if i > 0 {
        assert(is_space(s[0]));
        let t = s.drop_first();
        assert forall|j: int| 0 <= j < i - 1 implies is_space(#[trigger] t[j]) by {
            assert(t[j] == s[j + 1]);
        }
        lemma_trim_start_skip(t, i - 1);
        assert(t.subrange(i - 1, t.len() as int) =~= s.subrange(i, s.len() as int));
    } else {
        assert(s.subrange(0, s.len() as int) =~= s);
    }
}

proof fn lemma_trim_end_cut(s: Seq<char>, k: int)
    requires
        0 <= k <= s.len(),
        forall|j: int| k <= j < s.len() ==> is_space(#[trigger] s[j]),
    ensures
        trim_end(s) == trim_end(s.subrange(0, k)),
    decreases s.len() - k,
{
    if k < s.len() {
        assert(is_space(s.last()));
        let t = s.drop_last();
        lemma_trim_end_cut(t, k);
        assert(t.subrange(0, k) =~= s.subrange(0, k));
    } else {
        assert(s.subrange(0, k) =~= s);
    }
}

/// The copy of `v` without leading and trailing whitespace.
pub fn trim_chars(v: &Vec<char>) -> (r: Vec<char>)
    ensures
        r@ == trim(v@),
{
    let n = v.len();
    let mut a: usize = 0;
    while a < n && is_space_char(v[a])
        invariant
            a <= n == v.len(),
            forall|j: int| 0 <= j < a ==> is_space(#[trigger] v@[j]),
        decreases n - a,
    {
        a = a + 1;
    }
    proof {
        lemma_trim_start_skip(v@, a as int);
    }
    let ghost t = v@.subrange(a as int, n as int);
    assert(trim_start(t) == t);
    let mut b: usize = n;
    while b > a && is_space_char(v[b - 1])
        invariant
            a <= b <= n == v.len(),
            forall|j: int| b <= j < n ==> is_space(#[trigger] v@[j]),
        decreases b,
    {
        b = b - 1;
    }
    proof {
        assert forall|j: int| b - a <= j < t.len() implies is_space(#[trigger] t[j]) by {
            assert(t[j] == v@[j + a]);
        }
        lemma_trim_end_cut(t, b - a);
        let u = t.subrange(0, b - a);
        if u.len() > 0 {
            assert(u.last() == v@[b - 1]);
        }
        assert(trim_end(u) == u);
    }
    let mut r: Vec<char> = Vec::new();
    let mut i: usize = a;
    while i < b
        invariant
            a <= i <= b <= n == v.len(),
            r@ =~= v@.subrange(a as int, i as int),
        decreases b - i,
    {
        r.push(v[i]);
        i = i + 1;
    }
    assert(r@ =~= t.subrange(0, b - a));
    r
}

/// Whether two character sequences are equal.
pub fn chars_eq(a: &Vec<char>, b: &Vec<char>) -> (r: bool)
    ensures
        r == (a@ == b@),
{
    if a.len() != b.len() {
        return false;
    }
    let mut i: usize = 0;
    while i < a.len()
        invariant
            i <= a.len() == b.len(),
            forall|j: int| 0 <= j < i ==> a@[j] == b@[j],
        decreases a.len() - i,
    {
        if a[i] != b[i] {
            return false;
        }
        i = i + 1;
    }
    assert(a@ =~= b@);
    true
}

/// Whether the characters of `a` spell the string `word`.
pub fn chars_eq_str(a: &Vec<char>, word: &str) -> (r: bool)
    ensures
        r == (a@ == word@),
{
    let w = chars_of(word);
    chars_eq(a, &w)
}

/// The pieces of `v` between occurrences of `sep`.
pub fn split_chars(v: &Vec<char>, sep: char) -> (r: Vec<Vec<char>>)
    ensures
        r@.len() == split_on(v@, sep).len(),
        forall|i: int| 0 <= i < r@.len() ==> #[trigger] r@[i]@ == split_on(v@, sep)[i],
{
    // Build from the back so that each step matches the recursive definition.
    let mut pieces: Vec<Vec<char>> = Vec::new();
    let mut cur: Vec<char> = Vec::new();
    let mut i: usize = v.len();
    let ghost mut done: Seq<Seq<char>> = Seq::empty();
    // Invariant: split_on(v[i..]) == [cur_rev reversed] ++ done, with done
    // reversed in `pieces`.
    while i > 0
        invariant
            i <= v.len(),
            split_on(v@.subrange(i as int, v@.len() as int), sep) =~= seq![cur@] + done,
            pieces@.len() == done.len(),
            forall|j: int|
                0 <= j < done.len() ==> #[trigger] pieces@[j]@ == done[done.len() - 1 - j],
        decreases i,
    {
        let c = v[i - 1];
        let ghost s = v@.subrange(i - 1, v@.len() as int);
        assert(s.drop_first() =~= v@.subrange(i as int, v@.len() as int));
        assert(s[0] == c);
        if c == sep {
            let ghost old_cur = cur@;
            let mut fresh: Vec<char> = Vec::new();
            std::mem::swap(&mut fresh, &mut cur);
            pieces.push(fresh);
            proof {
                done = seq![old_cur] + done;
            }
            assert(split_on(s, sep) =~= seq![cur@] + done);
        } else {
            let ghost old_cur = cur@;
            cur.insert(0, c);
            assert(cur@ =~= seq![c] + old_cur);
            assert(split_on(s, sep) =~= seq![cur@] + done);
        }
        i = i - 1;
    }
    assert(v@.subrange(0, v@.len() as int) =~= v@);
    let ghost all = seq![cur@] + done;
    let mut r: Vec<Vec<char>> = Vec::new();
    r.push(cur);
    let mut k: usize = pieces.len();
    while k > 0
        invariant
            k == pieces@.len() <= done.len(),
            all == seq![all[0]] + done,
            r@.len() == 1 + done.len() - k,
            forall|j: int| 0 <= j < r@.len() ==> #[trigger] r@[j]@ == all[j],
            forall|j: int|
                0 <= j < k ==> #[trigger] pieces@[j]@ == done[done.len() - 1 - j],
        decreases k,
    {
        let p = pieces.pop().unwrap();
        assert(p@ == done[done.len() - k]);
        r.push(p);
        k = k - 1;
    }
    r
}

/// Whether `needle` occurs in `hay` at position `i`.
fn occurs_at_exec(hay: &Vec<char>, needle: &Vec<char>, i: usize) -> (r: bool)
    requires
        i + needle.len() <= hay.len(),
    ensures
        r == occurs_at(hay@, needle@, i as int),
{
    let mut j: usize = 0;
    while j < needle.len()
        invariant
            i + needle.len() <= hay.len(),
            j <= needle.len(),
            forall|k: int| 0 <= k < j ==> hay@[i + k] == needle@[k],
        decreases needle.len() - j,
    {
        if hay[i + j] != needle[j] {
            assert(hay@.subrange(i as int, i + needle.len())[j as int] != needle@[j as int]);
            return false;
        }
        j = j + 1;
    }
    assert(hay@.subrange(i as int, i + needle.len()) =~= needle@);
    true
}

/// Whether `needle` occurs somewhere in `hay` (`str::contains`).
pub fn contains_chars(hay: &Vec<char>, needle: &Vec<char>) -> (r: bool)
    ensures
        r == contains_seq(hay@, needle@),
{
    if needle.len() > hay.len() {
        return false;
    }
    let last = hay.len() - needle.len();
    let mut i: usize = 0;
    while i <= last
        invariant
            last + needle.len() == hay.len(),
            forall|k: int| 0 <= k < i ==> !occurs_at(hay@, needle@, k),
        decreases last + 1 - i,
    {
        if occurs_at_exec(hay, needle, i) {
            return true;
        }
        if i == last {
            assert forall|k: int| !occurs_at(hay@, needle@, k) by {
                if 0 <= k && k + needle@.len() <= hay@.len() {
                    assert(k <= last);
                }
            }
            return false;
        }
        i = i + 1;
    }
    false
}

/// Concatenates two strings.
pub fn concat_str(a: &str, b: &str) -> (r: String)
    ensures
        r@ == a@ + b@,
{
    let mut s = String::from_str(a);
    s.append(b);
    s
}

/// Whether two strings are equal.
pub fn str_eq(a: &str, b: &str) -> (r: bool)
    ensures
        r == (a@ == b@),
{
    let av = chars_of(a);
    let bv = chars_of(b);
    chars_eq(&av, &bv)
}

/// ASCII case mapping of one character, to upper case when `up`.
pub open spec fn case_char(c: char, up: bool) -> char {
    if up {
        upper_char(c)
    } else {
        lower_char(c)
    }
}

/// ASCII case mapping of a string, to upper case when `up`.
pub open spec fn case_seq(s: Seq<char>, up: bool) -> Seq<char> {
    if up {
        upper_seq(s)
    } else {
        lower_seq(s)
    }
}

/// Case mapping touches letters only: whitespace and `+` stay what they
/// are, and mapping again to either case forgets the first mapping.
pub proof fn lemma_case_char(c: char, up: bool)
    ensures
        is_space(case_char(c, up)) == is_space(c),
        (case_char(c, up) == '+') == (c == '+'),
        upper_char(case_char(c, up)) == upper_char(c),
        lower_char(case_char(c, up)) == lower_char(c),
{
    let u = c as u32;
    if 'A' <= c <= 'Z' {
        let l = ((c as u32) + 32) as char;
        assert(l as u32 == u + 32);
        assert('a' <= l <= 'z');
        assert(((l as u32) - 32) as char == c);
    }
    if 'a' <= c <= 'z' {
        let h = ((c as u32) - 32) as char;
        assert(h as u32 == u - 32);
        assert('A' <= h <= 'Z');
        assert(((h as u32) + 32) as char == c);
    }
}

/// The case mapping of a string maps each character.
pub proof fn lemma_case_seq(s: Seq<char>, up: bool)
    ensures
        case_seq(s, up).len() == s.len(),
        forall|i: int| 0 <= i < s.len() ==> #[trigger] case_seq(s, up)[i] == case_char(s[i], up),
{
}

/// Trimming commutes with case mapping.
pub proof fn lemma_case_trim(s: Seq<char>, up: bool)
    ensures
        trim(case_seq(s, up)) == case_seq(trim(s), up),
{
    lemma_case_trim_start(s, up);
    lemma_case_trim_end(trim_start(s), up);
}

proof fn lemma_case_trim_start(s: Seq<char>, up: bool)
    ensures
        trim_start(case_seq(s, up)) == case_seq(trim_start(s), up),
    decreases s.len(),
{
    let m = case_seq(s, up);
    lemma_case_seq(s, up);
    if s.len() > 0 {
        lemma_case_char(s[0], up);
        lemma_case_seq(s.drop_first(), up);
        assert(m.drop_first() =~= case_seq(s.drop_first(), up));
        if is_space(s[0]) {
            lemma_case_trim_start(s.drop_first(), up);
        }
    } else {
        assert(m =~= case_seq(s, up));
    }
}

proof fn lemma_case_trim_end(s: Seq<char>, up: bool)
    ensures
        trim_end(case_seq(s, up)) == case_seq(trim_end(s), up),
    decreases s.len(),
{
    let m = case_seq(s, up);
    lemma_case_seq(s, up);
    if s.len() > 0 {
        lemma_case_char(s.last(), up);
        lemma_case_seq(s.drop_last(), up);
        assert(m.drop_last() =~= case_seq(s.drop_last(), up));
        assert(m.last() == case_char(s.last(), up));
        if is_space(s.last()) {
            lemma_case_trim_end(s.drop_last(), up);
        }
    }
}

/// Mapping to either case after a case mapping forgets the first one.
pub proof fn lemma_case_twice(s: Seq<char>, up: bool)
    ensures
        lower_seq(case_seq(s, up)) == lower_seq(s),
        upper_seq(case_seq(s, up)) == upper_seq(s),
{
    lemma_case_seq(s, up);
    assert forall|i: int| 0 <= i < s.len() implies lower_seq(case_seq(s, up))[i] == lower_seq(s)[i]
        && upper_seq(case_seq(s, up))[i] == upper_seq(s)[i] by {
        lemma_case_char(s[i], up);
    }
    assert(lower_seq(case_seq(s, up)) =~= lower_seq(s));
    assert(upper_seq(case_seq(s, up)) =~= upper_seq(s));
}

/// Splitting commutes with case mapping (the separator `+` has no case).
pub proof fn lemma_case_split(s: Seq<char>, up: bool)
    ensures
        split_on(case_seq(s, up), '+') == split_on(s, '+').map_values(|p: Seq<char>| case_seq(p, up)),
    decreases s.len(),
{
    let m = case_seq(s, up);
    lemma_case_seq(s, up);
    if s.len() == 0 {
        assert(m =~= Seq::<char>::empty());
        assert(case_seq(Seq::<char>::empty(), up) =~= Seq::<char>::empty());
        assert(split_on(s, '+').map_values(|p: Seq<char>| case_seq(p, up)) =~= seq![
            Seq::<char>::empty(),
        ]);
    } else {
        lemma_case_char(s[0], up);
        lemma_case_seq(s.drop_first(), up);
        assert(m.drop_first() =~= case_seq(s.drop_first(), up));
        lemma_case_split(s.drop_first(), up);
        lemma_split_len(s.drop_first(), '+');
        let rest = split_on(s.drop_first(), '+');
        let mrest = rest.map_values(|p: Seq<char>| case_seq(p, up));
        if s[0] == '+' {
            assert(case_seq(Seq::<char>::empty(), up) =~= Seq::<char>::empty());
            assert((seq![Seq::<char>::empty()] + rest).map_values(|p: Seq<char>| case_seq(p, up))
                =~= seq![Seq::<char>::empty()] + mrest);
        } else {
            let first = seq![s[0]] + rest[0];
            lemma_case_seq(first, up);
            lemma_case_seq(rest[0], up);
            assert(case_seq(first, up) =~= seq![m[0]] + case_seq(rest[0], up));
            assert(rest.update(0, first).map_values(|p: Seq<char>| case_seq(p, up)) =~= mrest.update(
                0,
                seq![m[0]] + mrest[0],
            ));
        }
    }
}

/// `split_on` yields at least one piece.
pub proof fn lemma_split_len(s: Seq<char>, sep: char)
    ensures
        split_on(s, sep).len() >= 1,
    decreases s.len(),
{
    if s.len() > 0 {
        lemma_split_len(s.drop_first(), sep);
    }
}

} // verus!
