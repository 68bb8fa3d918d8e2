//! Character-level helpers shared by every text format of the library.
use vstd::prelude::*;

verus! {

/// The characters of `s`, in order.
pub fn chars_of(s: &str) -> (v: Vec<char>)
    ensures
        v@ == s@,
{
    broadcast use vstd::string::axiom_spec_iter;

    let mut v: Vec<char> = Vec::new();
    for c in it: s.chars()
        invariant
            it.seq() == s@,
            v@ == it.seq().take(it.index() as int),
    {
        v.push(c);
        assert(it.seq().take(it.index() + 1) =~= v@);
    }
    assert(s@.take(s@.len() as int) =~= s@);
    v
}

/// A `String` holding exactly the characters of `v`.
#[verifier::external_body]
pub fn string_of(v: &[char]) -> (s: String)
    ensures
        s@ == v@,
{
    v.iter().collect()
}

/// Unicode `White_Space`, the set that `char::is_whitespace` and `str::trim` use.
pub open spec fn is_space(c: char) -> bool {
    let n = c as u32;
    ||| 0x09 <= n <= 0x0d
    ||| n == 0x20
    ||| n == 0x85
    ||| n == 0xa0
    ||| n == 0x1680
    ||| 0x2000 <= n <= 0x200a
    ||| n == 0x2028
    ||| n == 0x2029
    ||| n == 0x202f
    ||| n == 0x205f
    ||| n == 0x3000
}

pub fn space(c: char) -> (b: bool)
    ensures
        b == is_space(c),
{
    let n = c as u32;
    (0x09 <= n && n <= 0x0d) || n == 0x20 || n == 0x85 || n == 0xa0 || n == 0x1680 || (0x2000
        <= n && n <= 0x200a) || n == 0x2028 || n == 0x2029 || n == 0x202f || n == 0x205f || n
        == 0x3000
}

/// The number of leading characters of `s` that are white space.
pub open spec fn lead_len(s: Seq<char>) -> nat
    decreases s.len(),
{
    if s.len() > 0 && is_space(s[0]) {
        1 + lead_len(s.drop_first())
    } else {
        0
    }
}

/// The number of trailing characters of `s` that are white space.
pub open spec fn trail_len(s: Seq<char>) -> nat
    decreases s.len(),
{
    if s.len() > 0 && is_space(s.last()) {
        1 + trail_len(s.drop_last())
    } else {
        0
    }
}

/// `s` without its leading and trailing white space, as `str::trim` gives it.
pub open spec fn trimmed(s: Seq<char>) -> Seq<char> {
    let front = s.skip(lead_len(s) as int);
    front.take(front.len() - trail_len(front))
}

proof fn lemma_lead_len(s: Seq<char>, i: int)
    requires
        0 <= i <= s.len(),
        forall|j: int| 0 <= j < i ==> is_space(#[trigger] s[j]),
        i == s.len() || !is_space(s[i]),
    ensures
        lead_len(s) == i,
    decreases i,
{
    if i > 0 {
        lemma_lead_len(s.drop_first(), i - 1);
    }
}

proof fn lemma_trail_len(s: Seq<char>, k: int)
    requires
        0 <= k <= s.len(),
        forall|j: int| s.len() - k <= j < s.len() ==> is_space(#[trigger] s[j]),
        k == s.len() || !is_space(s[s.len() - k - 1]),
    ensures
        trail_len(s) == k,
    decreases k,
{
    if k > 0 {
        lemma_trail_len(s.drop_last(), k - 1);
    }
}

/// The characters of `s` with surrounding white space removed.
pub fn trim_chars(s: &Vec<char>) -> (t: Vec<char>)
    ensures
        t@ == trimmed(s@),
{
    let mut start: usize = 0;
    while start < s.len() && space(s[start])
        invariant
            start <= s.len(),
            forall|j: int| 0 <= j < start ==> is_space(#[trigger] s@[j]),
        decreases s.len() - start,
    {
        start = start + 1;
    }
    proof {
        lemma_lead_len(s@, start as int);
    }
    let mut end: usize = s.len();
    while end > start && space(s[end - 1])
        invariant
            start <= end <= s.len(),
            forall|j: int| end <= j < s.len() ==> is_space(#[trigger] s@[j]),
        decreases end,
    {
        end = end - 1;
    }
    let ghost front = s@.skip(start as int);
    proof {
        assert forall|j: int| front.len() - (s.len() - end) <= j < front.len() implies is_space(
            #[trigger] front[j],
        ) by {
            assert(front[j] == s@[j + start]);
        }
        if end > start {
            assert(front[front.len() - (s.len() - end) - 1] == s@[end - 1]);
        }
        lemma_trail_len(front, (s.len() - end) as int);
    }
    let mut t: Vec<char> = Vec::new();
    let mut i = start;
    while i < end
        invariant
            start <= i <= end <= s.len(),
            t@ == s@.subrange(start as int, i as int),
        decreases end - i,
    {
        t.push(s[i]);
        i = i + 1;
    }
    assert(t@ =~= trimmed(s@));
    t
}

/// The characters of `s` with surrounding white space removed.
pub fn trim_str(s: &str) -> (t: Vec<char>)
    ensures
        t@ == trimmed(s@),
{
    let v = chars_of(s);
    trim_chars(&v)
}

/// Whether `prefix` is the start of `s`.
pub open spec fn starts_with(s: Seq<char>, prefix: Seq<char>) -> bool {
    prefix.len() <= s.len() && s.take(prefix.len() as int) == prefix
}

pub fn has_prefix(s: &Vec<char>, prefix: &Vec<char>) -> (b: bool)
    ensures
        b == starts_with(s@, prefix@),
{
    if prefix.len() > s.len() {
        return false;
    }
    let mut i: usize = 0;
    while i < prefix.len()
        invariant
            prefix.len() <= s.len(),
            i <= prefix.len(),
            forall|j: int| 0 <= j < i ==> s@[j] == prefix@[j],
        decreases prefix.len() - i,
    {
        if s[i] != prefix[i] {
            assert(s@.take(prefix.len() as int)[i as int] != prefix@[i as int]);
            return false;
        }
        i = i + 1;
    }
    assert(s@.take(prefix.len() as int) =~= prefix@);
    true
}

/// The characters of `s` from index `from` on.
pub fn tail(s: &Vec<char>, from: usize) -> (t: Vec<char>)
    requires
        from <= s.len(),
    ensures
        t@ == s@.skip(from as int),
{
    slice(s, from, s.len())
}

/// The characters of `s` in `from..to`.
pub fn slice(s: &Vec<char>, from: usize, to: usize) -> (t: Vec<char>)
    requires
        from <= to <= s.len(),
    ensures
        t@ == s@.subrange(from as int, to as int),
{
    let mut t: Vec<char> = Vec::new();
    let mut i = from;
    while i < to
        invariant
            from <= i <= to <= s.len(),
            t@ == s@.subrange(from as int, i as int),
        decreases to - i,
    {
        t.push(s[i]);
        i = i + 1;
    }
    t
}


/// Whether `s` has no characters.
pub fn no_chars(s: &str) -> (r: bool)
    ensures
        r == (s@.len() == 0),
{
    chars_of(s).len() == 0
}

/// The characters of `a` followed by those of `b`.
pub fn concat(a: &str, b: &str) -> (s: String)
    ensures
        s@ == a@ + b@,
{
    let mut v = chars_of(a);
    let w = chars_of(b);
    append(&mut v, &w);
    string_of(&v)
}

/// A `String` holding the characters of `s`.
pub fn owned(s: &str) -> (t: String)
    ensures
        t@ == s@,
{
    s.to_owned()
}

/// A copy of `v`.
pub fn copy_chars(v: &Vec<char>) -> (c: Vec<char>)
    ensures
        c@ == v@,
{
    slice(v, 0, v.len())
}

/// Appends the characters of `more` to `v`.
pub fn append(v: &mut Vec<char>, more: &Vec<char>)
    ensures
        final(v)@ == old(v)@ + more@,
{
    let mut i: usize = 0;
    while i < more.len()
        invariant
            i <= more.len(),
            v@ == old(v)@ + more@.take(i as int),
        decreases more.len() - i,
    {
        v.push(more[i]);
        i = i + 1;
        assert(v@ =~= old(v)@ + more@.take(i as int));
    }
    assert(more@.take(i as int) =~= more@);
}


/// Text that neither starts nor ends with white space is its own trimmed form.
pub proof fn lemma_trimmed_plain(s: Seq<char>)
    requires
        s.len() > 0,
        !is_space(s[0]),
        !is_space(s.last()),
    ensures
        trimmed(s) == s,
{
    assert(lead_len(s) == 0);
    assert(s.skip(0) =~= s);
    assert(trail_len(s) == 0);
    assert(s.take(s.len() as int) =~= s);
}

/// White space around a text whose ends are not white space trims away.
pub proof fn lemma_trimmed_padded(a: Seq<char>, t: Seq<char>, b: Seq<char>)
    requires
        t.len() > 0,
        !is_space(t[0]),
        !is_space(t.last()),
        forall|i: int| 0 <= i < a.len() ==> is_space(#[trigger] a[i]),
        forall|i: int| 0 <= i < b.len() ==> is_space(#[trigger] b[i]),
    ensures
        trimmed(a + t + b) == t,
{
    let s = a + t + b;
    assert forall|j: int| 0 <= j < a.len() implies is_space(#[trigger] s[j]) by {
        assert(s[j] == a[j]);
    }
    assert(s[a.len() as int] == t[0]);
    lemma_lead_len(s, a.len() as int);
    let front = s.skip(a.len() as int);
    assert(front =~= t + b);
    assert forall|j: int| front.len() - b.len() <= j < front.len() implies is_space(#[trigger] front[j]) by {
        assert(front[j] == b[j - t.len()]);
    }
    assert(front[front.len() - b.len() - 1] == t.last());
    lemma_trail_len(front, b.len() as int);
    assert(front.take(front.len() - b.len()) =~= t);
}

/// The trimmed form of `s` is a run of `s`.
pub proof fn lemma_trimmed_sub(s: Seq<char>) -> (a: int)
    ensures
        0 <= a,
        a + trimmed(s).len() <= s.len(),
        forall|i: int| 0 <= i < trimmed(s).len() ==> #[trigger] trimmed(s)[i] == s[a + i],
{
    lemma_lead_len_bound(s);
    let a = lead_len(s) as int;
    let front = s.skip(a);
    lemma_trail_len_bound(front);
    assert forall|i: int| 0 <= i < trimmed(s).len() implies #[trigger] trimmed(s)[i] == s[a + i] by {}
    a
}

proof fn lemma_lead_len_bound(s: Seq<char>)
    ensures
        lead_len(s) <= s.len(),
    decreases s.len(),
{
    if s.len() > 0 && is_space(s[0]) {
        lemma_lead_len_bound(s.drop_first());
    }
}

proof fn lemma_trail_len_bound(s: Seq<char>)
    ensures
        trail_len(s) <= s.len(),
    decreases s.len(),
{
    if s.len() > 0 && is_space(s.last()) {
        lemma_trail_len_bound(s.drop_last());
    }
}


/// Whether `a` and `b` hold the same characters.
pub fn same_chars(a: &Vec<char>, b: &Vec<char>) -> (r: bool)
    ensures
        r == (a@ == b@),
{
    if a.len() != b.len() {
        return false;
    }
    let mut i: usize = 0;
    while i < a.len()
        invariant
            a.len() == b.len(),
            i <= a.len(),
            forall|j: int| 0 <= j < i ==> a@[j] == b@[j],
        decreases a.len() - i,
    {
        if a[i] != b[i] {
            return false;
        }
        i = i + 1;
    }
    assert(a@ =~= b@);
    true
}

} // verus!
