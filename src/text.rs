use vstd::prelude::*;

verus! {

/// Whether the pattern `pat` occurs in `s` at position `i`.
pub open spec fn occurs_at(s: Seq<char>, pat: Seq<char>, i: int) -> bool {
    0 <= i && i + pat.len() <= s.len() && s.subrange(i, i + pat.len()) == pat
}

/// The first position at or after `from` where `pat` occurs in `s`, or -1 when there is none.
pub open spec fn find_spec(s: Seq<char>, pat: Seq<char>, from: int) -> int
    decreases s.len() + 1 - from,
{
    if from < 0 || from + pat.len() > s.len() {
        -1
    } else if occurs_at(s, pat, from) {
        from
    } else {
        find_spec(s, pat, from + 1)
    }
}

/// The characters of `s` from `a` up to `b`, or from `a` to the end when `b` is -1.
pub open spec fn slice_to(s: Seq<char>, a: int, b: int) -> Seq<char> {
    if b < 0 {
        s.subrange(a, s.len() as int)
    } else {
        s.subrange(a, b)
    }
}

/// The characters that separate words.
pub open spec fn is_space(c: char) -> bool {
    c == ' ' || c == '\t' || c == '\n' || c == '\r' || c == '\x0B' || c == '\x0C'
}

/// The first position at or after `from` that holds no separator, or the length of `s`.
pub open spec fn skip_space(s: Seq<char>, from: int) -> int
    decreases s.len() - from,
{
    if from < 0 || from >= s.len() {
        s.len() as int
    } else if !is_space(s[from]) {
        from
    } else {
        skip_space(s, from + 1)
    }
}

/// The first position at or after `from` that holds a separator, or the length of `s`.
pub open spec fn skip_word(s: Seq<char>, from: int) -> int
    decreases s.len() - from,
{
    if from < 0 || from >= s.len() {
        s.len() as int
    } else if is_space(s[from]) {
        from
    } else {
        skip_word(s, from + 1)
    }
}

/// The whitespace-separated words of `s` from position `from` on.
pub open spec fn words_from(s: Seq<char>, from: int) -> Seq<Seq<char>>
    decreases s.len() - from,
{
    let a = skip_space(s, from);
    let b = skip_word(s, a);
    if from < 0 || a >= s.len() || b <= from || b > s.len() || a > b {
        Seq::empty()
    } else {
        seq![s.subrange(a, b)] + words_from(s, b)
    }
}

/// The whitespace-separated words of `s`.
pub open spec fn words(s: Seq<char>) -> Seq<Seq<char>> {
    words_from(s, 0)
}

proof fn lemma_skip_space_bounds(s: Seq<char>, from: int)
    requires
        0 <= from,
    ensures
        from <= skip_space(s, from) || from > s.len(),
        skip_space(s, from) <= s.len(),
        skip_space(s, from) < s.len() ==> !is_space(s[skip_space(s, from)]),
    decreases s.len() - from,
{
    if from < s.len() && is_space(s[from]) {
        lemma_skip_space_bounds(s, from + 1);
    }
}

proof fn lemma_skip_word_bounds(s: Seq<char>, from: int)
    requires
        0 <= from <= s.len(),
    ensures
        from <= skip_word(s, from) <= s.len(),
        from < s.len() && !is_space(s[from]) ==> from < skip_word(s, from),
    decreases s.len() - from,
{
    if from < s.len() && !is_space(s[from]) {
        lemma_skip_word_bounds(s, from + 1);
    }
}

pub proof fn lemma_find_bounds(s: Seq<char>, pat: Seq<char>, from: int)
    ensures
        find_spec(s, pat, from) == -1 || (from <= find_spec(s, pat, from) && occurs_at(
            s,
            pat,
            find_spec(s, pat, from),
        )),
    decreases s.len() + 1 - from,
{
    if !(from < 0 || from + pat.len() > s.len()) && !occurs_at(s, pat, from) {
        lemma_find_bounds(s, pat, from + 1);
    }
}

/// What the first occurrence says: no earlier occurrence from `from` on, and none at all when
/// there is no first one.
pub proof fn lemma_find_first(s: Seq<char>, pat: Seq<char>, from: int, j: int)
    requires
        0 <= from <= j,
        find_spec(s, pat, from) == -1 || j < find_spec(s, pat, from),
    ensures
        !occurs_at(s, pat, j),
    decreases s.len() + 1 - from,
{
    if !(from + pat.len() > s.len()) && !occurs_at(s, pat, from) && from < j {
        lemma_find_first(s, pat, from + 1, j);
    }
}

/// Without an occurrence from `from` on, there is no first one.
pub proof fn lemma_find_absent(s: Seq<char>, pat: Seq<char>, from: int)
    requires
        0 <= from,
        forall|j: int| from <= j ==> !#[trigger] occurs_at(s, pat, j),
    ensures
        find_spec(s, pat, from) == -1,
    decreases s.len() + 1 - from,
{
    if !(from + pat.len() > s.len()) {
        assert(!occurs_at(s, pat, from));
        lemma_find_absent(s, pat, from + 1);
    }
}

/// Returns true when the two strings hold the same characters.
pub fn same_text(a: &str, b: &str) -> (r: bool)
    ensures
        r == (a@ == b@),
{
    let n = a.unicode_len();
    if n != b.unicode_len() {
        return false;
    }
    let mut i: usize = 0;
    while i < n
        invariant
            n == a@.len(),
            n == b@.len(),
            i <= n,
            forall|j: int| 0 <= j < i ==> a@[j] == b@[j],
        decreases n - i,
    {
        if a.get_char(i) != b.get_char(i) {
            return false;
        }
        i = i + 1;
    }
    assert(a@ =~= b@);
    true
}

/// Whether `pat` occurs in `s` at position `i`.
pub fn occurs(s: &str, n: usize, pat: &str, m: usize, i: usize) -> (r: bool)
    requires
        n == s@.len(),
        m == pat@.len(),
    ensures
        r == occurs_at(s@, pat@, i as int),
{
    if i > n || m > n - i {
        return false;
    }
    let mut j: usize = 0;
    while j < m
        invariant
            n == s@.len(),
            m == pat@.len(),
            i + m <= n,
            j <= m,
            forall|k: int| 0 <= k < j ==> s@[i + k] == pat@[k],
        decreases m - j,
    {
        if s.get_char(i + j) != pat.get_char(j) {
            assert(s@.subrange(i as int, i + m)[j as int] != pat@[j as int]);
            return false;
        }
        j = j + 1;
    }
    assert(s@.subrange(i as int, i + m) =~= pat@);
    true
}

/// The first position at or after `from` where `pat` occurs in `s`.
pub fn find_from(s: &str, pat: &str, from: usize) -> (r: Option<usize>)
    ensures
        match r {
            Some(i) => i as int == find_spec(s@, pat@, from as int),
            None => find_spec(s@, pat@, from as int) == -1,
        },
{
    let n = s.unicode_len();
    let m = pat.unicode_len();
    if m == 0 {
        if from <= n {
            assert(s@.subrange(from as int, from as int) =~= pat@);
            return Some(from);
        }
        return None;
    }
    let mut i = from;
    while i <= n && m <= n - i
        invariant
            n == s@.len(),
            m == pat@.len(),
            m > 0,
            from <= i,
            find_spec(s@, pat@, from as int) == find_spec(s@, pat@, i as int),
        decreases n - i,
    {
        if occurs(s, n, pat, m, i) {
            return Some(i);
        }
        i = i + 1;
    }
    None
}

/// The characters of `s` from `a` up to `b`, as a new string.
pub fn slice(s: &str, a: usize, b: usize) -> (r: String)
    requires
        a <= b <= s@.len(),
    ensures
        r@ == s@.subrange(a as int, b as int),
{
    s.substring_char(a, b).to_owned()
}

/// The first position at or after `from` that holds no separator.
fn skip_space_from(s: &str, n: usize, from: usize) -> (r: usize)
    requires
        n == s@.len(),
        from <= n,
    ensures
        r as int == skip_space(s@, from as int),
{
    let mut i = from;
    while i < n
        invariant
            n == s@.len(),
            from <= i <= n,
            skip_space(s@, from as int) == skip_space(s@, i as int),
        decreases n - i,
    {
        let c = s.get_char(i);
        if !(c == ' ' || c == '\t' || c == '\n' || c == '\r' || c == '\x0B' || c == '\x0C') {
            return i;
        }
        i = i + 1;
    }
    i
}

/// The first position at or after `from` that holds a separator.
fn skip_word_from(s: &str, n: usize, from: usize) -> (r: usize)
    requires
        n == s@.len(),
        from <= n,
    ensures
        r as int == skip_word(s@, from as int),
{
    let mut i = from;
    while i < n
        invariant
            n == s@.len(),
            from <= i <= n,
            skip_word(s@, from as int) == skip_word(s@, i as int),
        decreases n - i,
    {
        let c = s.get_char(i);
        if c == ' ' || c == '\t' || c == '\n' || c == '\r' || c == '\x0B' || c == '\x0C' {
            return i;
        }
        i = i + 1;
    }
    i
}

/// The whitespace-separated words of `s`, or `None` as soon as there are more than `max`.
pub fn split_words(s: &str, max: usize) -> (r: Option<Vec<String>>)
    ensures
        match r {
            Some(v) => v@.map_values(|w: String| w@) == words(s@) && v.len() <= max,
            None => words(s@).len() > max,
        },
{
    let n = s.unicode_len();
    let mut out: Vec<String> = Vec::new();
    let mut i: usize = 0;
    loop
        invariant
            n == s@.len(),
            i <= n,
            out.len() <= max,
            out@.map_values(|w: String| w@) + words_from(s@, i as int) == words(s@),
        decreases n - i,
    {
        let a = skip_space_from(s, n, i);
        proof {
            lemma_skip_space_bounds(s@, i as int);
        }
        if a >= n {
            assert(words_from(s@, i as int) =~= Seq::<Seq<char>>::empty());
            assert(out@.map_values(|w: String| w@) =~= words(s@));
            return Some(out);
        }
        let b = skip_word_from(s, n, a);
        proof {
            lemma_skip_word_bounds(s@, a as int);
        }
        if out.len() == max {
            proof {
                lemma_words_len(s@, i as int);
            }
            return None;
        }
        let w = slice(s, a, b);
        let ghost before = out@.map_values(|w: String| w@);
        out.push(w);
        assert(out@.map_values(|w: String| w@) =~= before.push(s@.subrange(a as int, b as int)));
        assert(words_from(s@, i as int) =~= seq![s@.subrange(a as int, b as int)] + words_from(s@, b as int));
        i = b;
    }
}

proof fn lemma_words_len(s: Seq<char>, from: int)
    requires
        0 <= from <= s.len(),
        skip_space(s, from) < s.len(),
    ensures
        words_from(s, from).len() >= 1,
{
    lemma_skip_space_bounds(s, from);
    lemma_skip_word_bounds(s, skip_space(s, from));
}

/// An ASCII lower-case letter mapped to upper case; any other character unchanged.
pub open spec fn upper_char(c: char) -> char {
    if 'a' <= c && c <= 'z' {
        ((c as u8) - 32) as char
    } else {
        c
    }
}

/// The text with each ASCII lower-case letter in upper case.
pub open spec fn ascii_upper(s: Seq<char>) -> Seq<char> {
    s.map_values(|c: char| upper_char(c))
}

/// Whether `s` holds only ASCII characters.
pub open spec fn ascii_text(s: Seq<char>) -> bool {
    forall|i: int| 0 <= i < s.len() ==> (#[trigger] s[i] as u32) < 128
}

/// An ASCII upper-case letter mapped to lower case; any other character unchanged.
pub open spec fn lower_char(c: char) -> char {
    if 'A' <= c && c <= 'Z' {
        ((c as u8) + 32) as char
    } else {
        c
    }
}

/// The text with each ASCII upper-case letter in lower case.
pub open spec fn ascii_lower(s: Seq<char>) -> Seq<char> {
    s.map_values(|c: char| lower_char(c))
}

/// What `str::to_lowercase` makes of a text.
pub uninterp spec fn lower_of(s: Seq<char>) -> Seq<char>;

/// Relies on str::to_lowercase: the lower-case form depends on the characters alone, and
/// on ASCII text it maps A to Z to a to z and keeps every other character.
#[verifier::external_body]
pub(crate) fn lowercase(s: &str) -> (r: String)
    ensures
        r@ == lower_of(s@),
        ascii_text(s@) ==> r@ == ascii_lower(s@),
{
    s.to_lowercase()
}

/// Relies on str::to_ascii_uppercase: ASCII letters a to z become A to Z, every other
/// character is kept.
#[verifier::external_body]
pub(crate) fn uppercase_ascii(s: &str) -> (r: String)
    ensures
        r@ == ascii_upper(s@),
{
    s.to_ascii_uppercase()
}

/// The decimal digit for `d`.
pub open spec fn digit_char(d: nat) -> char {
    ((48 + d) as u8) as char
}

/// The decimal notation of `n`, without leading zeros.
pub open spec fn decimal(n: nat) -> Seq<char>
    decreases n,
{
    if n < 10 {
        seq![digit_char(n)]
    } else {
        decimal(n / 10).push(digit_char(n % 10))
    }
}

/// Relies on `ToString` for usize: its decimal notation.
#[verifier::external_body]
pub(crate) fn decimal_string(n: usize) -> (r: String)
    ensures
        r@ == decimal(n as nat),
{
    n.to_string()
}

/// Whether `s` is a non-empty run of decimal digits.
pub open spec fn is_digits(s: Seq<char>) -> bool {
    s.len() > 0 && forall|i: int| 0 <= i < s.len() ==> '0' <= #[trigger] s[i] && s[i] <= '9'
}

/// The number that a run of decimal digits denotes.
pub open spec fn digits_value(s: Seq<char>) -> int
    decreases s.len(),
{
    if s.len() == 0 {
        0
    } else {
        digits_value(s.drop_last()) * 10 + (s.last() as int - '0' as int)
    }
}

/// The number that `s` writes as an optional `+` followed by decimal digits.
pub open spec fn unsigned_value(s: Seq<char>) -> Option<nat> {
    if s.len() > 0 && s[0] == '+' {
        if is_digits(s.skip(1)) {
            Some(digits_value(s.skip(1)) as nat)
        } else {
            None
        }
    } else if is_digits(s) {
        Some(digits_value(s) as nat)
    } else {
        None
    }
}

/// Whether `s` writes a number that fits a `usize`.
pub open spec fn fits_usize(s: Seq<char>) -> bool {
    unsigned_value(s) is Some && unsigned_value(s)->0 <= usize::MAX
}

/// Relies on `FromStr` for usize: an optional `+` and decimal digits, within the type's
/// range; anything else, a `-` sign included, is refused.
#[verifier::external_body]
pub(crate) fn parse_usize(s: &str) -> (r: Option<usize>)
    ensures
        r is Some <==> fits_usize(s@),
        r is Some ==> r->0 as nat == unsigned_value(s@)->0,
{
    s.parse::<usize>().ok()
}

} // verus!
