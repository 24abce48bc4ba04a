//! Character sequences: the model of text that the contracts speak of,
//! and the executable helpers that work on vectors of characters.

use vstd::prelude::*;

verus! {

/// Whether `c` is white space: whether it has the Unicode property
/// White_Space, as `char::is_whitespace` tells.
pub open spec fn is_space(c: char) -> bool {
    let n = c as u32;
    ||| 0x09 <= n <= 0x0D
    ||| n == 0x20
    ||| n == 0x85
    ||| n == 0xA0
    ||| n == 0x1680
    ||| 0x2000 <= n <= 0x200A
    ||| n == 0x2028
    ||| n == 0x2029
    ||| n == 0x202F
    ||| n == 0x205F
    ||| n == 0x3000
}

/// Whether `c` is one of the 52 ASCII letters.
pub open spec fn is_ascii_letter(c: char) -> bool {
    let n = c as u32;
    0x41 <= n <= 0x5A || 0x61 <= n <= 0x7A
}

/// Whether `c` is one of the ten ASCII digits.
pub open spec fn is_ascii_digit(c: char) -> bool {
    let n = c as u32;
    0x30 <= n <= 0x39
}

/// What `char::is_alphanumeric` answers for `c`.
pub uninterp spec fn unicode_alphanumeric(c: char) -> bool;

/// Whether `c` is a letter or a digit: decided here for ASCII, and by
/// `char::is_alphanumeric` for every other character.
pub open spec fn is_alphanumeric(c: char) -> bool {
    if (c as u32) < 0x80 {
        is_ascii_letter(c) || is_ascii_digit(c)
    } else {
        unicode_alphanumeric(c)
    }
}

/// Whether `c` may stand at either end of a path: a letter, a digit, or one
/// of `/`, `.`, `_` and `-`.
pub open spec fn is_path_char(c: char) -> bool {
    is_alphanumeric(c) || c == '/' || c == '.' || c == '_' || c == '-'
}

/// `char::is_alphanumeric` depends on the character alone; its answer is
/// named, not spelled out.
pub assume_specification[ char::is_alphanumeric ](c: char) -> (b: bool)
    ensures
        b == unicode_alphanumeric(c),
;

/// `String::push` appends one character at the end of the string.
pub assume_specification[ String::push ](s: &mut String, c: char)
    ensures
        final(s)@ == old(s)@.push(c),
;

/// Whether `c` is white space.
pub fn is_white_space(c: char) -> (b: bool)
    ensures
        b == is_space(c),
{
    let n: u32 = c as u32;
    (0x09 <= n && n <= 0x0D) || n == 0x20 || n == 0x85 || n == 0xA0 || n == 0x1680 || (0x2000 <= n
        && n <= 0x200A) || n == 0x2028 || n == 0x2029 || n == 0x202F || n == 0x205F || n == 0x3000
}

/// A set of characters that a scan runs over or stops at.
#[derive(Clone, Copy, Debug)]
pub enum CharClass {
    /// White space.
    Space,
    /// Everything but white space.
    NonSpace,
    /// Everything that cannot stand at either end of a path.
    Punctuation,
    /// Everything but the ASCII letters.
    NonLetter,
}

impl CharClass {
    /// Whether `c` belongs to the class.
    pub open spec fn has(self, c: char) -> bool {
        match self {
            CharClass::Space => is_space(c),
            CharClass::NonSpace => !is_space(c),
            CharClass::Punctuation => !is_path_char(c),
            CharClass::NonLetter => !is_ascii_letter(c),
        }
    }

    /// Tests whether `c` belongs to the class.
    pub fn contains(self, c: char) -> (b: bool)
        ensures
            b == self.has(c),
    {
        let n: u32 = c as u32;
        match self {
            CharClass::Space => is_white_space(c),
            CharClass::NonSpace => !is_white_space(c),
            CharClass::Punctuation => {
                let inner = if n < 0x80 {
                    (0x41 <= n && n <= 0x5A) || (0x61 <= n && n <= 0x7A) || (0x30 <= n && n
                        <= 0x39)
                } else {
                    c.is_alphanumeric()
                };
                !(inner || c == '/' || c == '.' || c == '_' || c == '-')
            },
            CharClass::NonLetter => !((0x41 <= n && n <= 0x5A) || (0x61 <= n && n <= 0x7A)),
        }
    }
}

/// How many characters at the start of `s` belong to `class`.
pub open spec fn leading(s: Seq<char>, class: CharClass) -> nat
    decreases s.len(),
{
    if s.len() > 0 && class.has(s[0]) {
        1 + leading(s.skip(1), class)
    } else {
        0
    }
}

/// How many characters at the end of `s` belong to `class`.
pub open spec fn trailing(s: Seq<char>, class: CharClass) -> nat
    decreases s.len(),
{
    if s.len() > 0 && class.has(s.last()) {
        1 + trailing(s.drop_last(), class)
    } else {
        0
    }
}

/// `s` without the characters of `class` at its start.
pub open spec fn strip_start(s: Seq<char>, class: CharClass) -> Seq<char> {
    s.skip(leading(s, class) as int)
}

/// `s` without the characters of `class` at its end.
pub open spec fn strip_end(s: Seq<char>, class: CharClass) -> Seq<char> {
    s.take(s.len() - trailing(s, class))
}

/// `s` without the characters of `class` at its start and at its end.
pub open spec fn strip(s: Seq<char>, class: CharClass) -> Seq<char> {
    strip_end(strip_start(s, class), class)
}

/// `s` without white space at its start and at its end.
pub open spec fn trim(s: Seq<char>) -> Seq<char> {
    strip(s, CharClass::Space)
}

/// The leading run of `class` ends at the first character outside it.
pub proof fn lemma_leading(s: Seq<char>, class: CharClass)
    ensures
        leading(s, class) <= s.len(),
        forall|i: int| 0 <= i < leading(s, class) ==> class.has(#[trigger] s[i]),
        leading(s, class) < s.len() ==> !class.has(s[leading(s, class) as int]),
    decreases s.len(),
{
    if s.len() > 0 && class.has(s[0]) {
        let t = s.skip(1);
        lemma_leading(t, class);
        assert forall|i: int| 0 <= i < leading(s, class) implies class.has(#[trigger] s[i]) by {
            if i > 0 {
                assert(s[i] == t[i - 1]);
            }
        }
        if leading(s, class) < s.len() {
            assert(s[leading(s, class) as int] == t[leading(t, class) as int]);
        }
    }
}

/// A run of `class` that stops at the end or at a character outside the
/// class is the leading run.
pub proof fn lemma_leading_is(s: Seq<char>, class: CharClass, n: int)
    requires
        0 <= n <= s.len(),
        forall|i: int| 0 <= i < n ==> class.has(#[trigger] s[i]),
        n < s.len() ==> !class.has(s[n]),
    ensures
        leading(s, class) == n,
    decreases s.len(),
{
    if n > 0 {
        let t = s.skip(1);
        assert forall|i: int| 0 <= i < n - 1 implies class.has(#[trigger] t[i]) by {
            assert(t[i] == s[i + 1]);
        }
        lemma_leading_is(t, class, n - 1);
    }
}

/// The trailing run of `class` begins after the last character outside it.
pub proof fn lemma_trailing(s: Seq<char>, class: CharClass)
    ensures
        trailing(s, class) <= s.len(),
        forall|i: int| s.len() - trailing(s, class) <= i < s.len() ==> class.has(#[trigger] s[i]),
        trailing(s, class) < s.len() ==> !class.has(s[s.len() - trailing(s, class) - 1]),
    decreases s.len(),
{
    if s.len() > 0 && class.has(s.last()) {
        let t = s.drop_last();
        lemma_trailing(t, class);
        assert forall|i: int| s.len() - trailing(s, class) <= i < s.len() implies class.has(
            #[trigger] s[i],
        ) by {
            if i < s.len() - 1 {
                assert(s[i] == t[i]);
            }
        }
        if trailing(s, class) < s.len() {
            assert(s[s.len() - trailing(s, class) - 1] == t[t.len() - trailing(t, class) - 1]);
        }
    }
}

/// A run of `class` that reaches the end and begins at the start or after a
/// character outside the class is the trailing run.
pub proof fn lemma_trailing_is(s: Seq<char>, class: CharClass, n: int)
    requires
        0 <= n <= s.len(),
        forall|i: int| s.len() - n <= i < s.len() ==> class.has(#[trigger] s[i]),
        n < s.len() ==> !class.has(s[s.len() - n - 1]),
    ensures
        trailing(s, class) == n,
    decreases s.len(),
{
    if n > 0 {
        let t = s.drop_last();
        assert forall|i: int| t.len() - (n - 1) <= i < t.len() implies class.has(
            #[trigger] t[i],
        ) by {
            assert(t[i] == s[i]);
        }
        lemma_trailing_is(t, class, n - 1);
    }
}

/// `c` with an ASCII capital letter replaced by its small letter.
pub open spec fn ascii_lower_char(c: char) -> char {
    let n = c as u32;
    if 0x41 <= n <= 0x5A {
        ((n + 0x20) as u8) as char
    } else {
        c
    }
}

/// `c` with an ASCII small letter replaced by its capital letter.
pub open spec fn ascii_upper_char(c: char) -> char {
    let n = c as u32;
    if 0x61 <= n <= 0x7A {
        ((n - 0x20) as u8) as char
    } else {
        c
    }
}

/// `s` with every ASCII capital letter replaced by its small letter.
pub open spec fn ascii_lower(s: Seq<char>) -> Seq<char> {
    Seq::new(s.len(), |i: int| ascii_lower_char(s[i]))
}

/// `s` with every ASCII small letter replaced by its capital letter.
pub open spec fn ascii_upper(s: Seq<char>) -> Seq<char> {
    Seq::new(s.len(), |i: int| ascii_upper_char(s[i]))
}

/// Whether `pat` stands in `s` at index `i`.
pub open spec fn occurs_at(s: Seq<char>, pat: Seq<char>, i: int) -> bool {
    0 <= i && i + pat.len() <= s.len() && s.subrange(i, i + pat.len()) == pat
}

/// The least index at which `pat` stands in `s`, if there is one.
pub open spec fn find(s: Seq<char>, pat: Seq<char>) -> Option<int>
    decreases s.len(),
{
    if occurs_at(s, pat, 0) {
        Some(0int)
    } else if s.len() == 0 {
        None
    } else {
        match find(s.skip(1), pat) {
            Some(i) => Some(i + 1),
            None => None,
        }
    }
}

/// Whether `pat` stands somewhere in `s`.
pub open spec fn contains(s: Seq<char>, pat: Seq<char>) -> bool {
    find(s, pat) is Some
}

/// Whether `s` begins with `pat`.
pub open spec fn starts_with(s: Seq<char>, pat: Seq<char>) -> bool {
    occurs_at(s, pat, 0)
}

/// Whether `s` ends with `pat`.
pub open spec fn ends_with(s: Seq<char>, pat: Seq<char>) -> bool {
    occurs_at(s, pat, s.len() - pat.len())
}

/// An occurrence in `s` after its first character is one in the rest.
pub proof fn lemma_occurs_at_skip(s: Seq<char>, pat: Seq<char>, i: int, k: int)
    requires
        0 <= k <= i,
        k <= s.len(),
    ensures
        occurs_at(s, pat, i) == occurs_at(s.skip(k), pat, i - k),
{
    if i + pat.len() <= s.len() {
        assert(s.skip(k).subrange(i - k, i - k + pat.len()) =~= s.subrange(i, i + pat.len()));
    }
}

/// `find` gives an occurrence with none before it, or there is none at all.
pub proof fn lemma_find(s: Seq<char>, pat: Seq<char>)
    ensures
        match find(s, pat) {
            Some(i) => occurs_at(s, pat, i) && forall|j: int| 0 <= j < i ==> !occurs_at(s, pat, j),
            None => forall|j: int| !occurs_at(s, pat, j),
        },
    decreases s.len(),
{
    if occurs_at(s, pat, 0) {
    } else if s.len() == 0 {
    } else {
        let t = s.skip(1);
        lemma_find(t, pat);
        assert forall|j: int| 1 <= j implies occurs_at(s, pat, j) == occurs_at(t, pat, j - 1) by {
            lemma_occurs_at_skip(s, pat, j, 1);
        }
        match find(t, pat) {
            Some(i) => {
                assert forall|j: int| 0 <= j < i + 1 implies !occurs_at(s, pat, j) by {
                    if j >= 1 {
                        assert(!occurs_at(t, pat, j - 1));
                    }
                }
            },
            None => {
                assert forall|j: int| !occurs_at(s, pat, j) by {
                    if j >= 1 {
                        assert(!occurs_at(t, pat, j - 1));
                    }
                }
            },
        }
    }
}

/// An occurrence with none before it is what `find` gives.
pub proof fn lemma_find_is(s: Seq<char>, pat: Seq<char>, i: int)
    requires
        occurs_at(s, pat, i),
        forall|j: int| 0 <= j < i ==> !occurs_at(s, pat, j),
    ensures
        find(s, pat) == Some(i),
{
    lemma_find(s, pat);
    match find(s, pat) {
        Some(k) => {
            if k < i {
                assert(!occurs_at(s, pat, k));
            }
        },
        None => {
            assert(!occurs_at(s, pat, i));
        },
    }
}

/// Where there is no occurrence, `find` gives none.
pub proof fn lemma_find_none(s: Seq<char>, pat: Seq<char>)
    requires
        forall|j: int| 0 <= j <= s.len() ==> !occurs_at(s, pat, j),
    ensures
        find(s, pat) is None,
{
    lemma_find(s, pat);
    match find(s, pat) {
        Some(k) => {
            assert(occurs_at(s, pat, k));
        },
        None => {},
    }
}

/// What stands somewhere in a text is found in it.
pub proof fn lemma_occurrence_is_found(s: Seq<char>, pat: Seq<char>, k: int)
    requires
        occurs_at(s, pat, k),
    ensures
        contains(s, pat),
{
    lemma_find(s, pat);
}

/// What stands in the middle one of three texts stands in the three put
/// together.
pub proof fn lemma_occurs_inside(a: Seq<char>, b: Seq<char>, c: Seq<char>, pat: Seq<char>, k: int)
    requires
        occurs_at(b, pat, k),
    ensures
        occurs_at(a + b + c, pat, a.len() + k),
{
    assert((a + b + c).subrange(a.len() + k, a.len() + k + pat.len()) =~= b.subrange(
        k,
        k + pat.len(),
    ));
}

/// An occurrence found in `a` is the one found in `a` followed by more text.
pub proof fn lemma_find_in_prefix(a: Seq<char>, b: Seq<char>, pat: Seq<char>)
    requires
        find(a, pat) is Some,
    ensures
        find(a + b, pat) == find(a, pat),
{
    lemma_find(a, pat);
    let i = find(a, pat)->0;
    assert((a + b).subrange(i, i + pat.len()) =~= a.subrange(i, i + pat.len()));
    assert forall|j: int| 0 <= j < i implies !occurs_at(a + b, pat, j) by {
        assert((a + b).subrange(j, j + pat.len()) =~= a.subrange(j, j + pat.len()));
        assert(!occurs_at(a, pat, j));
    }
    lemma_find_is(a + b, pat, i);
}

/// After text without the character `c`, the first `c` is the first one of
/// what follows.
pub proof fn lemma_find_char_after(a: Seq<char>, b: Seq<char>, c: char)
    requires
        forall|i: int| 0 <= i < a.len() ==> a[i] != c,
    ensures
        find(a + b, seq![c]) == match find(b, seq![c]) {
            Some(i) => Some(a.len() + i),
            None => None,
        },
{
    let pat = seq![c];
    lemma_find(b, pat);
    assert forall|j: int| 0 <= j < a.len() implies !occurs_at(a + b, pat, j) by {
        if occurs_at(a + b, pat, j) {
            assert((a + b).subrange(j, j + 1)[0] == c);
        }
    }
    assert forall|j: int| a.len() <= j implies occurs_at(a + b, pat, j) == occurs_at(
        b,
        pat,
        j - a.len(),
    ) by {
        assert((a + b).skip(a.len() as int) =~= b);
        lemma_occurs_at_skip(a + b, pat, j, a.len() as int);
    }
    match find(b, pat) {
        Some(i) => {
            assert forall|j: int| 0 <= j < a.len() + i implies !occurs_at(a + b, pat, j) by {
                if j >= a.len() {
                    assert(!occurs_at(b, pat, j - a.len()));
                }
            }
            lemma_find_is(a + b, pat, a.len() + i);
        },
        None => {
            assert forall|j: int| 0 <= j <= (a + b).len() implies !occurs_at(a + b, pat, j) by {
                if j >= a.len() {
                    assert(!occurs_at(b, pat, j - a.len()));
                }
            }
            lemma_find_none(a + b, pat);
        },
    }
}

/// The first `c` of `s` is at the index `find` gives, and nowhere before.
pub proof fn lemma_find_char(s: Seq<char>, c: char)
    ensures
        match find(s, seq![c]) {
            Some(i) => 0 <= i < s.len() && s[i] == c && forall|j: int| 0 <= j < i ==> s[j] != c,
            None => forall|j: int| 0 <= j < s.len() ==> s[j] != c,
        },
{
    let pat = seq![c];
    lemma_find(s, pat);
    assert forall|j: int| 0 <= j < s.len() implies (occurs_at(s, pat, j) <==> s[j] == c) by {
        if s[j] == c {
            assert(s.subrange(j, j + 1) =~= pat);
        } else {
            assert(s.subrange(j, j + 1)[0] == s[j]);
        }
    }
}

/// Maps an ASCII capital letter to its small letter and keeps every other
/// character.
pub(crate) fn to_ascii_lower(c: char) -> (r: char)
    ensures
        r == ascii_lower_char(c),
{
    let n: u32 = c as u32;
    if 0x41 <= n && n <= 0x5A {
        ((n + 0x20) as u8) as char
    } else {
        c
    }
}

/// Maps an ASCII small letter to its capital letter and keeps every other
/// character.
pub(crate) fn to_ascii_upper(c: char) -> (r: char)
    ensures
        r == ascii_upper_char(c),
{
    let n: u32 = c as u32;
    if 0x61 <= n && n <= 0x7A {
        ((n - 0x20) as u8) as char
    } else {
        c
    }
}

/// The characters `v[lo..hi]`, ASCII capital letters made small.
pub(crate) fn lower_range(v: &Vec<char>, lo: usize, hi: usize) -> (r: Vec<char>)
    requires
        lo <= hi <= v.len(),
    ensures
        r@ == ascii_lower(v@.subrange(lo as int, hi as int)),
{
    let mut r: Vec<char> = Vec::new();
    let mut i: usize = lo;
    while i < hi
        invariant
            lo <= i <= hi <= v.len(),
            r@ == ascii_lower(v@.subrange(lo as int, i as int)),
        decreases hi - i,
    {
        r.push(to_ascii_lower(v[i]));
        i += 1;
        assert(r@ =~= ascii_lower(v@.subrange(lo as int, i as int)));
    }
    assert(r@ =~= ascii_lower(v@.subrange(lo as int, hi as int)));
    r
}

/// The characters `v[lo..hi]`, ASCII small letters made capital.
pub(crate) fn upper_range(v: &Vec<char>, lo: usize, hi: usize) -> (r: Vec<char>)
    requires
        lo <= hi <= v.len(),
    ensures
        r@ == ascii_upper(v@.subrange(lo as int, hi as int)),
{
    let mut r: Vec<char> = Vec::new();
    let mut i: usize = lo;
    while i < hi
        invariant
            lo <= i <= hi <= v.len(),
            r@ == ascii_upper(v@.subrange(lo as int, i as int)),
        decreases hi - i,
    {
        r.push(to_ascii_upper(v[i]));
        i += 1;
        assert(r@ =~= ascii_upper(v@.subrange(lo as int, i as int)));
    }
    assert(r@ =~= ascii_upper(v@.subrange(lo as int, hi as int)));
    r
}

/// Whether `pat` stands in `v` at index `at`.
pub(crate) fn matches_at(v: &Vec<char>, at: usize, pat: &Vec<char>) -> (b: bool)
    ensures
        b == occurs_at(v@, pat@, at as int),
{
    if at > v.len() || pat.len() > v.len() - at {
        return false;
    }
    let mut k: usize = 0;
    while k < pat.len()
        invariant
            at + pat.len() <= v.len(),
            k <= pat.len(),
            v@.subrange(at as int, at + k) == pat@.take(k as int),
        decreases pat.len() - k,
    {
        if v[at + k] != pat[k] {
            proof {
                let w = v@.subrange(at as int, at + pat.len());
                assert(w[k as int] != pat@[k as int]);
            }
            return false;
        }
        k += 1;
        assert(v@.subrange(at as int, at + k) =~= pat@.take(k as int));
    }
    assert(pat@.take(pat.len() as int) =~= pat@);
    true
}

/// Whether the two vectors hold the same characters.
pub(crate) fn same_chars(a: &Vec<char>, b: &Vec<char>) -> (r: bool)
    ensures
        r == (a@ == b@),
{
    if a.len() != b.len() {
        return false;
    }
    let r = matches_at(a, 0, b);
    assert(a@.subrange(0, a.len() as int) =~= a@);
    r
}

/// The least index at which `pat` stands in `v[lo..hi]`, if there is one.
pub(crate) fn find_in(v: &Vec<char>, lo: usize, hi: usize, pat: &Vec<char>) -> (r: Option<usize>)
    requires
        lo <= hi <= v.len(),
    ensures
        match r {
            Some(i) => lo <= i && i + pat.len() <= hi && find(
                v@.subrange(lo as int, hi as int),
                pat@,
            ) == Some(i - lo),
            None => find(v@.subrange(lo as int, hi as int), pat@) is None,
        },
{
    let ghost s = v@.subrange(lo as int, hi as int);
    if pat.len() > hi - lo {
        proof {
            lemma_find_none(s, pat@);
        }
        return None;
    }
    let last: usize = hi - pat.len();
    let mut i: usize = lo;
    loop
        invariant
            lo <= i <= last,
            last == hi - pat.len(),
            lo <= hi <= v.len(),
            s == v@.subrange(lo as int, hi as int),
            forall|j: int| 0 <= j < i - lo ==> !occurs_at(s, pat@, j),
        decreases last - i,
    {
        let hit = matches_at(v, i, pat);
        proof {
            assert(s.subrange(i - lo, i - lo + pat.len()) =~= v@.subrange(
                i as int,
                i + pat.len(),
            ));
        }
        if hit {
            proof {
                lemma_find_is(s, pat@, i - lo);
            }
            return Some(i);
        }
        if i == last {
            proof {
                lemma_find_none(s, pat@);
            }
            return None;
        }
        i += 1;
    }
}

/// How many bytes the UTF-8 encoding of `c` takes.
pub open spec fn utf8_width(c: char) -> nat {
    let n = c as u32;
    if n < 0x80 {
        1
    } else if n < 0x800 {
        2
    } else if n < 0x10000 {
        3
    } else {
        4
    }
}

/// How many bytes the UTF-8 encoding of `s` takes: what `str::len` gives.
pub open spec fn utf8_len(s: Seq<char>) -> nat {
    vstd::utf8::encode_utf8(s).len()
}

/// How many characters at the start of `s` fit into `max` bytes of UTF-8.
pub open spec fn fitting(s: Seq<char>, max: nat) -> nat
    decreases s.len(),
{
    if s.len() == 0 || utf8_width(s[0]) > max {
        0
    } else {
        1 + fitting(s.skip(1), (max - utf8_width(s[0])) as nat)
    }
}

/// The longest prefix of `s` whose UTF-8 encoding takes at most `max`
/// bytes. It ends between two characters, never inside one.
pub open spec fn fit(s: Seq<char>, max: nat) -> Seq<char> {
    s.take(fitting(s, max) as int)
}

/// One more character adds its width to the encoded length.
pub proof fn lemma_utf8_len_push(s: Seq<char>, c: char)
    ensures
        utf8_len(s.push(c)) == utf8_len(s) + utf8_width(c),
    decreases s.len(),
{
    vstd::utf8::char_is_scalar(c);
    if s.len() == 0 {
        assert(s.push(c).drop_first() =~= Seq::<char>::empty());
        assert(vstd::utf8::encode_utf8(s.push(c).drop_first()).len() == 0);
    } else {
        assert(s.push(c).drop_first() =~= s.drop_first().push(c));
        lemma_utf8_len_push(s.drop_first(), c);
    }
}

/// A longer prefix is encoded in no fewer bytes.
pub proof fn lemma_utf8_len_prefix(s: Seq<char>, i: int, j: int)
    requires
        0 <= i <= j <= s.len(),
    ensures
        utf8_len(s.take(i)) <= utf8_len(s.take(j)),
    decreases j - i,
{
    if i < j {
        lemma_utf8_len_prefix(s, i, j - 1);
        assert(s.take(j) =~= s.take(j - 1).push(s[j - 1]));
        lemma_utf8_len_push(s.take(j - 1), s[j - 1]);
    }
}

/// The fitting prefix is within the limit, and one more character would go
/// over it.
pub proof fn lemma_fitting(s: Seq<char>, max: nat)
    ensures
        fitting(s, max) <= s.len(),
        utf8_len(fit(s, max)) <= max,
        fitting(s, max) < s.len() ==> utf8_len(s.take(fitting(s, max) as int + 1)) > max,
        utf8_len(s) <= max ==> fit(s, max) == s,
    decreases s.len(),
{
    let nothing = Seq::<char>::empty();
    assert(s.take(0) =~= nothing);
    if s.len() == 0 {
        assert(fit(s, max) =~= s);
    } else {
        let c = s[0];
        let t = s.skip(1);
        let one = nothing.push(c);
        lemma_utf8_len_push(nothing, c);
        assert(s.take(1) =~= one);
        if utf8_width(c) > max {
            lemma_utf8_len_prefix(s, 1, s.len() as int);
            assert(s.take(s.len() as int) =~= s);
        } else {
            let left = (max - utf8_width(c)) as nat;
            lemma_fitting(t, left);
            let k = fitting(t, left) as int;
            lemma_utf8_len_shift(s, k + 1);
            assert(s.skip(1).take(k) =~= t.take(k));
            if k < t.len() {
                lemma_utf8_len_shift(s, k + 2);
                assert(s.skip(1).take(k + 1) =~= t.take(k + 1));
            }
            lemma_utf8_len_shift(s, s.len() as int);
            assert(s.take(s.len() as int) =~= s);
            assert(s.skip(1).take(s.len() - 1) =~= t);
            if utf8_len(s) <= max {
                assert(fit(t, left) == t);
                assert(k == t.len());
                assert(fit(s, max) =~= s);
            }
        }
    }
}

/// The encoded length of a prefix is the width of the first character and
/// the encoded length of the rest of the prefix.
pub proof fn lemma_utf8_len_shift(s: Seq<char>, k: int)
    requires
        1 <= k <= s.len(),
    ensures
        utf8_len(s.take(k)) == utf8_width(s[0]) + utf8_len(s.skip(1).take(k - 1)),
{
    vstd::utf8::char_is_scalar(s[0]);
    assert(s.take(k).drop_first() =~= s.skip(1).take(k - 1));
}

/// A prefix that is within the limit is part of the fitting prefix.
pub proof fn lemma_fitting_holds(s: Seq<char>, max: nat, k: int)
    requires
        0 <= k <= s.len(),
        utf8_len(s.take(k)) <= max,
    ensures
        k <= fitting(s, max),
    decreases s.len(),
{
    if k > 0 {
        lemma_utf8_len_shift(s, k);
        let t = s.skip(1);
        let left = (max - utf8_width(s[0])) as nat;
        assert(t.take(k - 1).len() == k - 1);
        lemma_fitting_holds(t, left, k - 1);
    }
}

/// How many bytes the UTF-8 encoding of `c` takes.
pub(crate) fn width_of(c: char) -> (w: usize)
    ensures
        w == utf8_width(c),
        1 <= w <= 4,
{
    let n: u32 = c as u32;
    if n < 0x80 {
        1
    } else if n < 0x800 {
        2
    } else if n < 0x10000 {
        3
    } else {
        4
    }
}

/// How many characters at the start of `v` fit into `max` bytes of UTF-8.
pub(crate) fn fitting_count(v: &Vec<char>, max: usize) -> (k: usize)
    ensures
        k == fitting(v@, max as nat),
        k <= v.len(),
{
    let ghost s = v@;
    let n = v.len();
    let mut i: usize = 0;
    let mut left: usize = max;
    assert(s.skip(0) =~= s);
    while i < n && width_of(v[i]) <= left
        invariant
            s == v@,
            n == v.len(),
            i <= n,
            fitting(s, max as nat) == i + fitting(s.skip(i as int), left as nat),
        decreases n - i,
    {
        assert(s.skip(i as int).skip(1) =~= s.skip(i + 1));
        left -= width_of(v[i]);
        i += 1;
    }
    i
}

/// The characters of `s`, in order.
pub(crate) fn chars_of(s: &str) -> (v: Vec<char>)
    ensures
        v@ == s@,
{
    let mut v: Vec<char> = Vec::new();
    for c in it: s.chars()
        invariant
            it.seq() == s@,
            v@ == s@.take(it.index() as int),
    {
        v.push(c);
    }
    v
}

/// The string made of the characters `v[lo..hi]`.
pub(crate) fn string_of(v: &Vec<char>, lo: usize, hi: usize) -> (s: String)
    requires
        lo <= hi <= v.len(),
    ensures
        s@ == v@.subrange(lo as int, hi as int),
{
    let mut s = String::new();
    let mut i: usize = lo;
    while i < hi
        invariant
            lo <= i <= hi <= v.len(),
            s@ == v@.subrange(lo as int, i as int),
        decreases hi - i,
    {
        s.push(v[i]);
        i += 1;
    }
    s
}

/// Appends the characters `v[lo..hi]` to `out`.
pub(crate) fn push_range(out: &mut Vec<char>, v: &Vec<char>, lo: usize, hi: usize)
    requires
        lo <= hi <= v.len(),
    ensures
        final(out)@ == old(out)@ + v@.subrange(lo as int, hi as int),
{
    let mut i: usize = lo;
    while i < hi
        invariant
            lo <= i <= hi <= v.len(),
            out@ == old(out)@ + v@.subrange(lo as int, i as int),
        decreases hi - i,
    {
        out.push(v[i]);
        i += 1;
    }
}

/// Appends the characters of `s` to `out`.
pub(crate) fn push_str(out: &mut Vec<char>, s: &str)
    ensures
        final(out)@ == old(out)@ + s@,
{
    let v = chars_of(s);
    push_range(out, &v, 0, v.len());
}

/// The end of the run of `class` that begins at `lo` in `v[lo..hi]`.
pub(crate) fn skip_leading(v: &Vec<char>, lo: usize, hi: usize, class: CharClass) -> (at: usize)
    requires
        lo <= hi <= v.len(),
    ensures
        at == lo + leading(v@.subrange(lo as int, hi as int), class),
        lo <= at <= hi,
{
    let mut i: usize = lo;
    while i < hi && class.contains(v[i])
        invariant
            lo <= i <= hi <= v.len(),
            forall|j: int| lo <= j < i ==> class.has(#[trigger] v@[j]),
        decreases hi - i,
    {
        i += 1;
    }
    proof {
        lemma_leading_is(v@.subrange(lo as int, hi as int), class, i - lo);
    }
    i
}

/// The start of the run of `class` that ends at `hi` in `v[lo..hi]`.
pub(crate) fn skip_trailing(v: &Vec<char>, lo: usize, hi: usize, class: CharClass) -> (at: usize)
    requires
        lo <= hi <= v.len(),
    ensures
        at == hi - trailing(v@.subrange(lo as int, hi as int), class),
        lo <= at <= hi,
{
    let mut i: usize = hi;
    while i > lo && class.contains(v[i - 1])
        invariant
            lo <= i <= hi <= v.len(),
            forall|j: int| i <= j < hi ==> class.has(#[trigger] v@[j]),
        decreases i - lo,
    {
        i -= 1;
    }
    proof {
        lemma_trailing_is(v@.subrange(lo as int, hi as int), class, hi - i);
    }
    i
}

/// The bounds of `v[lo..hi]` without the characters of `class` at its
/// start and at its end.
pub(crate) fn strip_bounds(v: &Vec<char>, lo: usize, hi: usize, class: CharClass) -> (r: (usize, usize))
    requires
        lo <= hi <= v.len(),
    ensures
        lo <= r.0 <= r.1 <= hi,
        v@.subrange(r.0 as int, r.1 as int) == strip(v@.subrange(lo as int, hi as int), class),
        r.0 == lo + leading(v@.subrange(lo as int, hi as int), class),
{
    let a = skip_leading(v, lo, hi, class);
    let b = skip_trailing(v, a, hi, class);
    proof {
        let s = v@.subrange(lo as int, hi as int);
        assert(strip_start(s, class) =~= v@.subrange(a as int, hi as int));
        assert(strip(s, class) =~= v@.subrange(a as int, b as int));
    }
    (a, b)
}

} // verus!
