//! Reading numbers, words and lines out of text, as `str`'s parsing methods do.
use vstd::prelude::*;
use crate::text::is_space;

verus! {

pub open spec fn is_digit(c: char) -> bool {
    '0' <= c && c <= '9'
}

pub open spec fn all_digits(s: Seq<char>) -> bool {
    forall|i: int| 0 <= i < s.len() ==> is_digit(#[trigger] s[i])
}

/// The decimal value of the digits `s`.
pub open spec fn dec_value(s: Seq<char>) -> nat
    decreases s.len(),
{
    if s.len() == 0 {
        0
    } else {
        dec_value(s.drop_last()) * 10 + ((s.last() as u32) - 48) as nat
    }
}

/// The digits of `s` without one leading `+`.
pub open spec fn unsigned_digits(s: Seq<char>) -> Seq<char> {
    if s.len() > 0 && s[0] == '+' {
        s.skip(1)
    } else {
        s
    }
}

/// An unsigned decimal no larger than `max`, as `str::parse` reads one.
pub open spec fn parse_unsigned(s: Seq<char>, max: nat) -> Option<nat> {
    let d = unsigned_digits(s);
    if d.len() > 0 && all_digits(d) && dec_value(d) <= max {
        Some(dec_value(d))
    } else {
        None
    }
}

proof fn lemma_dec_value_grows(s: Seq<char>)
    requires
        all_digits(s),
        s.len() > 0,
    ensures
        dec_value(s) >= dec_value(s.drop_last()),
{
}

/// An unsigned decimal no larger than `max`.
pub fn parse_decimal(s: &Vec<char>, max: u64) -> (r: Option<u64>)
    ensures
        match r {
            Some(n) => parse_unsigned(s@, max as nat) == Some(n as nat),
            None => parse_unsigned(s@, max as nat) is None,
        },
{
    let ghost d = unsigned_digits(s@);
    let start: usize = if s.len() > 0 && s[0] == '+' {
        1
    } else {
        0
    };
    assert(d =~= s@.skip(start as int));
    if start >= s.len() {
        return None;
    }
    let mut n: u64 = 0;
    let mut i = start;
    while i < s.len()
        invariant
            start <= i <= s.len(),
            d == s@.skip(start as int),
            d == unsigned_digits(s@),
            all_digits(d.take(i - start)),
            n as nat == dec_value(d.take(i - start)),
            n <= max,
        decreases s.len() - i,
    {
        let c = s[i];
        assert(d.take(i - start + 1).drop_last() =~= d.take(i - start));
        assert(d.take(i - start + 1).last() == c);
        assert(d[i - start] == c);
        if !('0' <= c && c <= '9') {
            assert(!is_digit(d[i - start]));
            return None;
        }
        let digit = (c as u32 - 48) as u64;
        if digit > max || n > (max - digit) / 10 {
            proof {
                let k = i - start + 1;
                assert(n * 10 + digit > max) by (nonlinear_arith)
                    requires
                        digit > max || n > (max - digit) / 10,
                        digit <= max ==> (max - digit) / 10 * 10 <= max - digit,
                        digit <= max ==> max - digit < ((max - digit) / 10 + 1) * 10,
                ;
                assert(dec_value(d.take(k)) == n * 10 + digit);
                if all_digits(d) {
                    lemma_dec_prefix_grows(d, k, d.len() as int);
                    assert(d.take(d.len() as int) =~= d);
                    assert(all_digits(d.take(d.len() as int)));
                }
            }
            return None;
        }
        n = n * 10 + digit;
        i = i + 1;
        assert forall|m: int| 0 <= m < d.take(i - start).len() implies is_digit(
            #[trigger] d.take(i - start)[m],
        ) by {
            if m < i - 1 - start {
                assert(d.take(i - start)[m] == d.take(i - 1 - start)[m]);
            }
        }
    }
    assert(d.take(i - start) =~= d);
    Some(n)
}

proof fn lemma_dec_prefix_grows(d: Seq<char>, k: int, m: int)
    requires
        0 <= k <= m <= d.len(),
    ensures
        all_digits(d.take(m)) ==> dec_value(d.take(m)) >= dec_value(d.take(k)),
    decreases m - k,
{
    if k < m {
        lemma_dec_prefix_grows(d, k, m - 1);
        assert(d.take(m).drop_last() =~= d.take(m - 1));
        if all_digits(d.take(m)) {
            assert(all_digits(d.take(m - 1))) by {
                assert forall|i: int| 0 <= i < d.take(m - 1).len() implies is_digit(
                    #[trigger] d.take(m - 1)[i],
                ) by {
                    assert(d.take(m - 1)[i] == d.take(m)[i]);
                }
            }
            assert(dec_value(d.take(m)) >= dec_value(d.take(m - 1))) by (nonlinear_arith)
                requires
                    dec_value(d.take(m)) == dec_value(d.take(m).drop_last()) * 10 + ((d.take(
                        m,
                    ).last() as u32) - 48) as nat,
                    d.take(m).drop_last() == d.take(m - 1),
            ;
        }
    }
}

/// The ASCII lower-case form of `c`.
pub open spec fn lower(c: char) -> char {
    if 'A' <= c && c <= 'Z' {
        ((c as u32) + 32) as char
    } else {
        c
    }
}

pub open spec fn lower_all(s: Seq<char>) -> Seq<char> {
    Seq::new(s.len(), |i: int| lower(s[i]))
}

pub fn to_lower(s: &Vec<char>) -> (t: Vec<char>)
    ensures
        t@ == lower_all(s@),
{
    let mut t: Vec<char> = Vec::new();
    let mut i: usize = 0;
    while i < s.len()
        invariant
            i <= s.len(),
            t@ == lower_all(s@).take(i as int),
        decreases s.len() - i,
    {
        let c = s[i];
        let l = if 'A' <= c && c <= 'Z' {
            ((c as u8) + 32) as char
        } else {
            c
        };
        t.push(l);
        i = i + 1;
        assert(t@ =~= lower_all(s@).take(i as int));
    }
    assert(lower_all(s@).take(i as int) =~= lower_all(s@));
    t
}

/// Whether `t` occurs in `s`.
pub open spec fn contains_run(s: Seq<char>, t: Seq<char>) -> bool {
    exists|i: int| 0 <= i && i + t.len() <= s.len() && #[trigger] s.subrange(i, i + t.len()) == t
}

pub fn has_run(s: &Vec<char>, t: &Vec<char>) -> (r: bool)
    ensures
        r == contains_run(s@, t@),
{
    if t.len() > s.len() {
        return false;
    }
    let mut i: usize = 0;
    while i <= s.len() - t.len()
        invariant
            t.len() <= s.len(),
            i <= s.len() - t.len() + 1,
            forall|k: int| 0 <= k < i ==> #[trigger] s@.subrange(k, k + t.len()) != t@,
        decreases s.len() - i,
    {
        let mut j: usize = 0;
        while j < t.len() && s[i + j] == t[j]
            invariant
                i + t.len() <= s.len(),
                j <= t.len(),
                forall|m: int| 0 <= m < j ==> s@[i + m] == t@[m],
            decreases t.len() - j,
        {
            j = j + 1;
        }
        if j == t.len() {
            assert(s@.subrange(i as int, i + t.len()) =~= t@);
            return true;
        }
        assert(s@.subrange(i as int, i + t.len())[j as int] != t@[j as int]);
        i = i + 1;
    }
    false
}

/// The position of the first `c` in `s`.
pub open spec fn first_of(s: Seq<char>, c: char) -> Option<int> {
    if exists|i: int| 0 <= i < s.len() && s[i] == c {
        Some(choose|i: int| 0 <= i < s.len() && s[i] == c && forall|j: int| 0 <= j < i ==> s[j] != c)
    } else {
        None
    }
}

/// The position of the last `c` in `s`.
pub open spec fn last_of(s: Seq<char>, c: char) -> Option<int> {
    if exists|i: int| 0 <= i < s.len() && s[i] == c {
        Some(
            choose|i: int| 0 <= i < s.len() && s[i] == c && forall|j: int| i < j < s.len() ==> s[j] != c,
        )
    } else {
        None
    }
}

pub fn find_first(s: &Vec<char>, c: char) -> (r: Option<usize>)
    ensures
        match r {
            Some(i) => first_of(s@, c) == Some(i as int) && i < s@.len() && s@[i as int] == c,
            None => first_of(s@, c) is None,
        },
{
    let mut i: usize = 0;
    while i < s.len()
        invariant
            i <= s.len(),
            forall|j: int| 0 <= j < i ==> s@[j] != c,
        decreases s.len() - i,
    {
        if s[i] == c {
            proof {
                let w = choose|k: int|
                    0 <= k < s@.len() && s@[k] == c && forall|j: int| 0 <= j < k ==> s@[j] != c;
                assert(0 <= i < s@.len() && s@[i as int] == c && forall|j: int|
                    0 <= j < i ==> s@[j] != c);
                if w < i {
                } else if w > i {
                    assert(s@[i as int] != c);
                }
            }
            return Some(i);
        }
        i = i + 1;
    }
    None
}

pub fn find_last(s: &Vec<char>, c: char) -> (r: Option<usize>)
    ensures
        match r {
            Some(i) => last_of(s@, c) == Some(i as int) && i < s@.len() && s@[i as int] == c,
            None => last_of(s@, c) is None,
        },
{
    let mut i: usize = s.len();
    while i > 0
        invariant
            i <= s.len(),
            forall|j: int| i <= j < s.len() ==> s@[j] != c,
        decreases i,
    {
        if s[i - 1] == c {
            proof {
                let k = (i - 1) as int;
                let w = choose|m: int|
                    0 <= m < s@.len() && s@[m] == c && forall|j: int| m < j < s@.len() ==> s@[j] != c;
                assert(0 <= k < s@.len() && s@[k] == c && forall|j: int| k < j < s@.len() ==> s@[j] != c);
                if w < k {
                    assert(s@[k] != c);
                } else if w > k {
                }
            }
            return Some(i - 1);
        }
        i = i - 1;
    }
    None
}

/// The words of `s`: its runs of characters that are not white space.
pub open spec fn words(s: Seq<char>) -> Seq<Seq<char>> {
    words_run(s).0.add(if words_run(s).1.len() > 0 {
        seq![words_run(s).1]
    } else {
        Seq::empty()
    })
}

/// The words finished so far and the word being read.
pub open spec fn words_run(s: Seq<char>) -> (Seq<Seq<char>>, Seq<char>)
    decreases s.len(),
{
    if s.len() == 0 {
        (Seq::empty(), Seq::empty())
    } else {
        let (done, cur) = words_run(s.drop_last());
        if is_space(s.last()) {
            if cur.len() > 0 {
                (done.push(cur), Seq::empty())
            } else {
                (done, cur)
            }
        } else {
            (done, cur.push(s.last()))
        }
    }
}

pub fn split_words(s: &Vec<char>) -> (v: Vec<Vec<char>>)
    ensures
        v@.len() == words(s@).len(),
        forall|i: int| 0 <= i < v@.len() ==> (#[trigger] v@[i])@ == words(s@)[i],
{
    let mut done: Vec<Vec<char>> = Vec::new();
    let mut cur: Vec<char> = Vec::new();
    let mut i: usize = 0;
    while i < s.len()
        invariant
            i <= s.len(),
            done@.len() == words_run(s@.take(i as int)).0.len(),
            forall|j: int| 0 <= j < done@.len() ==> (#[trigger] done@[j])@ == words_run(
                s@.take(i as int),
            ).0[j],
            cur@ == words_run(s@.take(i as int)).1,
        decreases s.len() - i,
    {
        assert(s@.take(i + 1).drop_last() =~= s@.take(i as int));
        assert(s@.take(i + 1).last() == s@[i as int]);
        if crate::text::space(s[i]) {
            if cur.len() > 0 {
                let ghost before = done@;
                let w = cur;
                done.push(w);
                cur = Vec::new();
                assert forall|j: int| 0 <= j < done@.len() implies (#[trigger] done@[j])@
                    == words_run(s@.take(i + 1)).0[j] by {
                    if j < before.len() {
                        assert(done@[j] == before[j]);
                    }
                }
                assert(cur@ =~= Seq::<char>::empty());
            }
        } else {
            cur.push(s[i]);
        }
        i = i + 1;
    }
    assert(s@.take(i as int) =~= s@);
    if cur.len() > 0 {
        let ghost before = done@;
        done.push(cur);
        assert forall|j: int| 0 <= j < done@.len() implies (#[trigger] done@[j])@ == words(s@)[j] by {
            if j < before.len() {
                assert(done@[j] == before[j]);
            }
        }
    } else {
        assert forall|j: int| 0 <= j < done@.len() implies (#[trigger] done@[j])@ == words(s@)[j] by {
            assert(words(s@) =~= words_run(s@).0);
        }
        assert(words(s@) =~= words_run(s@).0);
    }
    done
}

} // verus!

verus! {

pub open spec fn hex_digit_value(c: char) -> Option<nat> {
    if '0' <= c && c <= '9' {
        Some(((c as u32) - 48) as nat)
    } else if 'a' <= c && c <= 'f' {
        Some(((c as u32) - 87) as nat)
    } else if 'A' <= c && c <= 'F' {
        Some(((c as u32) - 55) as nat)
    } else {
        None
    }
}

pub open spec fn all_hex(s: Seq<char>) -> bool {
    forall|i: int| 0 <= i < s.len() ==> (#[trigger] hex_digit_value(s[i])) is Some
}

pub open spec fn hex_value(s: Seq<char>) -> nat
    decreases s.len(),
{
    if s.len() == 0 {
        0
    } else {
        hex_value(s.drop_last()) * 16 + match hex_digit_value(s.last()) {
            Some(v) => v,
            None => 0,
        }
    }
}

/// An unsigned hexadecimal no larger than `max`, as `from_str_radix(_, 16)` reads one.
pub open spec fn parse_unsigned_hex(s: Seq<char>, max: nat) -> Option<nat> {
    let d = unsigned_digits(s);
    if d.len() > 0 && all_hex(d) && hex_value(d) <= max {
        Some(hex_value(d))
    } else {
        None
    }
}

proof fn lemma_hex_prefix_grows(d: Seq<char>, k: int, m: int)
    requires
        0 <= k <= m <= d.len(),
    ensures
        all_hex(d.take(m)) ==> hex_value(d.take(m)) >= hex_value(d.take(k)),
    decreases m - k,
{
    if k < m {
        lemma_hex_prefix_grows(d, k, m - 1);
        assert(d.take(m).drop_last() =~= d.take(m - 1));
        if all_hex(d.take(m)) {
            assert(all_hex(d.take(m - 1))) by {
                assert forall|i: int| 0 <= i < d.take(m - 1).len() implies (#[trigger] hex_digit_value(
                    d.take(m - 1)[i],
                )) is Some by {
                    assert(d.take(m - 1)[i] == d.take(m)[i]);
                }
            }
        }
    }
}

fn hex_digit(c: char) -> (r: Option<u64>)
    ensures
        match r {
            Some(v) => hex_digit_value(c) == Some(v as nat) && v < 16,
            None => hex_digit_value(c) is None,
        },
{
    if '0' <= c && c <= '9' {
        Some((c as u32 - 48) as u64)
    } else if 'a' <= c && c <= 'f' {
        Some((c as u32 - 87) as u64)
    } else if 'A' <= c && c <= 'F' {
        Some((c as u32 - 55) as u64)
    } else {
        None
    }
}

/// An unsigned hexadecimal no larger than `max`.
pub fn parse_hex_number(s: &Vec<char>, max: u64) -> (r: Option<u64>)
    ensures
        match r {
            Some(n) => parse_unsigned_hex(s@, max as nat) == Some(n as nat),
            None => parse_unsigned_hex(s@, max as nat) is None,
        },
{
    let ghost d = unsigned_digits(s@);
    let start: usize = if s.len() > 0 && s[0] == '+' {
        1
    } else {
        0
    };
    assert(d =~= s@.skip(start as int));
    if start >= s.len() {
        return None;
    }
    let mut n: u64 = 0;
    let mut i = start;
    while i < s.len()
        invariant
            start <= i <= s.len(),
            d == s@.skip(start as int),
            d == unsigned_digits(s@),
            all_hex(d.take(i - start)),
            n as nat == hex_value(d.take(i - start)),
            n <= max,
        decreases s.len() - i,
    {
        let c = s[i];
        assert(d.take(i - start + 1).drop_last() =~= d.take(i - start));
        assert(d.take(i - start + 1).last() == c);
        assert(d[i - start] == c);
        let digit = match hex_digit(c) {
            Some(v) => v,
            None => {
                assert(hex_digit_value(d[i - start]) is None);
                return None;
            },
        };
        if digit > max || n > (max - digit) / 16 {
            proof {
                let k = i - start + 1;
                assert(n * 16 + digit > max) by (nonlinear_arith)
                    requires
                        digit > max || n > (max - digit) / 16,
                        digit <= max ==> max - digit < ((max - digit) / 16 + 1) * 16,
                ;
                assert(hex_value(d.take(k)) == n * 16 + digit);
                if all_hex(d) {
                    lemma_hex_prefix_grows(d, k, d.len() as int);
                    assert(d.take(d.len() as int) =~= d);
                }
            }
            return None;
        }
        n = n * 16 + digit;
        i = i + 1;
        assert forall|m: int| 0 <= m < d.take(i - start).len() implies (#[trigger] hex_digit_value(
            d.take(i - start)[m],
        )) is Some by {
            if m < i - 1 - start {
                assert(d.take(i - start)[m] == d.take(i - 1 - start)[m]);
            }
        }
    }
    assert(d.take(i - start) =~= d);
    Some(n)
}

/// The decimal digits of `n`.
pub open spec fn dec_text(n: nat) -> Seq<char>
    decreases n,
{
    if n < 10 {
        seq![((n + 48) as u32) as char]
    } else {
        dec_text(n / 10).push((((n % 10) + 48) as u32) as char)
    }
}

/// `n` in decimal.
pub fn decimal(n: u64) -> (v: Vec<char>)
    ensures
        v@ == dec_text(n as nat),
    decreases n,
{
    if n < 10 {
        let c = ((n as u8) + 48) as char;
        let mut v: Vec<char> = Vec::new();
        v.push(c);
        assert(v@ =~= dec_text(n as nat));
        v
    } else {
        let mut v = decimal(n / 10);
        let c = (((n % 10) as u8) + 48) as char;
        v.push(c);
        v
    }
}

/// `n` in decimal, for the wide integers.
pub fn decimal_wide(n: u128) -> (v: Vec<char>)
    ensures
        v@ == dec_text(n as nat),
    decreases n,
{
    if n < 10 {
        let c = ((n as u8) + 48) as char;
        let mut v: Vec<char> = Vec::new();
        v.push(c);
        assert(v@ =~= dec_text(n as nat));
        v
    } else {
        let mut v = decimal_wide(n / 10);
        let c = (((n % 10) as u8) + 48) as char;
        v.push(c);
        v
    }
}

/// The position of the first run `t` in `s`.
pub open spec fn first_run<T>(s: Seq<T>, t: Seq<T>) -> Option<int> {
    if exists|i: int| 0 <= i && i + t.len() <= s.len() && #[trigger] s.subrange(i, i + t.len()) == t {
        Some(
            choose|i: int|
                0 <= i && i + t.len() <= s.len() && #[trigger] s.subrange(i, i + t.len()) == t
                    && forall|j: int| 0 <= j < i ==> #[trigger] s.subrange(j, j + t.len()) != t,
        )
    } else {
        None
    }
}

pub fn find_run(s: &Vec<char>, t: &Vec<char>) -> (r: Option<usize>)
    ensures
        match r {
            Some(i) => first_run(s@, t@) == Some(i as int),
            None => first_run(s@, t@) is None,
        },
{
    if t.len() > s.len() {
        return None;
    }
    let mut i: usize = 0;
    while i <= s.len() - t.len()
        invariant
            t.len() <= s.len(),
            i <= s.len() - t.len() + 1,
            forall|k: int| 0 <= k < i ==> #[trigger] s@.subrange(k, k + t.len()) != t@,
        decreases s.len() - i,
    {
        let mut j: usize = 0;
        while j < t.len() && s[i + j] == t[j]
            invariant
                i + t.len() <= s.len(),
                j <= t.len(),
                forall|m: int| 0 <= m < j ==> s@[i + m] == t@[m],
            decreases t.len() - j,
        {
            j = j + 1;
        }
        if j == t.len() {
            assert(s@.subrange(i as int, i + t.len()) =~= t@);
            proof {
                let w = choose|k: int|
                    0 <= k && k + t@.len() <= s@.len() && #[trigger] s@.subrange(k, k + t@.len()) == t@
                        && forall|m: int| 0 <= m < k ==> #[trigger] s@.subrange(m, m + t@.len()) != t@;
                assert(0 <= i && i + t@.len() <= s@.len() && s@.subrange(i as int, i + t@.len()) == t@
                    && forall|m: int| 0 <= m < i ==> #[trigger] s@.subrange(m, m + t@.len()) != t@);
                if w > i {
                    assert(s@.subrange(i as int, i + t@.len()) != t@);
                }
            }
            return Some(i);
        }
        assert(s@.subrange(i as int, i + t.len())[j as int] != t@[j as int]);
        i = i + 1;
    }
    None
}

pub proof fn lemma_first_run<T>(s: Seq<T>, t: Seq<T>)
    ensures
        match first_run(s, t) {
            Some(i) => 0 <= i && i + t.len() <= s.len() && s.subrange(i, i + t.len()) == t
                && forall|j: int| 0 <= j < i ==> #[trigger] s.subrange(j, j + t.len()) != t,
            None => forall|j: int|
                0 <= j && j + t.len() <= s.len() ==> #[trigger] s.subrange(j, j + t.len()) != t,
        },
{
    if exists|i: int| 0 <= i && i + t.len() <= s.len() && #[trigger] s.subrange(i, i + t.len()) == t {
        let w = choose|i: int| 0 <= i && i + t.len() <= s.len() && #[trigger] s.subrange(i, i + t.len()) == t;
        lemma_least_run(s, t, w);
    }
}

proof fn lemma_least_run<T>(s: Seq<T>, t: Seq<T>, w: int)
    requires
        0 <= w && w + t.len() <= s.len() && s.subrange(w, w + t.len()) == t,
    ensures
        exists|i: int|
            0 <= i && i + t.len() <= s.len() && #[trigger] s.subrange(i, i + t.len()) == t
                && forall|j: int| 0 <= j < i ==> #[trigger] s.subrange(j, j + t.len()) != t,
    decreases w,
{
    if exists|j: int| 0 <= j < w && #[trigger] s.subrange(j, j + t.len()) == t {
        let j = choose|j: int| 0 <= j < w && #[trigger] s.subrange(j, j + t.len()) == t;
        lemma_least_run(s, t, j);
    } else {
        assert(forall|j: int| 0 <= j < w ==> #[trigger] s.subrange(j, j + t.len()) != t);
    }
}

/// The pieces of `s` between occurrences of the non-empty separator `t`.
pub open spec fn split_on(s: Seq<char>, t: Seq<char>) -> Seq<Seq<char>>
    decreases s.len(),
{
    if t.len() == 0 {
        seq![s]
    } else {
        match first_run(s, t) {
            Some(i) => {
                proof {
                    lemma_first_run(s, t);
                }
                seq![s.take(i)] + split_on(s.skip(i + t.len()), t)
            },
            None => seq![s],
        }
    }
}

/// The position of the first run `t` in the bytes `s`.
pub fn find_bytes(s: &[u8], t: &[u8]) -> (r: Option<usize>)
    ensures
        match r {
            Some(i) => first_run(s@, t@) == Some(i as int),
            None => first_run(s@, t@) is None,
        },
{
    proof {
        lemma_first_run(s@, t@);
    }
    if t.len() > s.len() {
        return None;
    }
    let mut i: usize = 0;
    while i <= s.len() - t.len()
        invariant
            t.len() <= s.len(),
            i <= s.len() - t.len() + 1,
            forall|k: int| 0 <= k < i ==> #[trigger] s@.subrange(k, k + t.len()) != t@,
            match first_run(s@, t@) {
                Some(i) => 0 <= i && i + t@.len() <= s@.len() && s@.subrange(i, i + t@.len()) == t@
                    && forall|j: int| 0 <= j < i ==> #[trigger] s@.subrange(j, j + t@.len()) != t@,
                None => forall|j: int|
                    0 <= j && j + t@.len() <= s@.len() ==> #[trigger] s@.subrange(j, j + t@.len()) != t@,
            },
        decreases s.len() - i,
    {
        let mut j: usize = 0;
        while j < t.len() && s[i + j] == t[j]
            invariant
                i + t.len() <= s.len(),
                j <= t.len(),
                forall|m: int| 0 <= m < j ==> s@[i + m] == t@[m],
            decreases t.len() - j,
        {
            j = j + 1;
        }
        if j == t.len() {
            assert(s@.subrange(i as int, i + t.len()) =~= t@);
            proof {
                match first_run(s@, t@) {
                    Some(w) => {
                        if w > i {
                            assert(s@.subrange(i as int, i + t@.len()) != t@);
                        }
                    },
                    None => {},
                }
            }
            return Some(i);
        }
        assert(s@.subrange(i as int, i + t.len())[j as int] != t@[j as int]);
        i = i + 1;
    }
    None
}

/// The pieces of `s` between occurrences of `t`.
pub fn split_text(s: &Vec<char>, t: &Vec<char>) -> (v: Vec<Vec<char>>)
    requires
        t.len() > 0,
    ensures
        v@.len() == split_on(s@, t@).len(),
        forall|i: int| 0 <= i < v@.len() ==> (#[trigger] v@[i])@ == split_on(s@, t@)[i],
{
    let mut done: Vec<Vec<char>> = Vec::new();
    let mut rest = crate::text::copy_chars(s);
    let ghost mut views: Seq<Seq<char>> = Seq::empty();
    loop
        invariant
            t.len() > 0,
            done@.len() == views.len(),
            forall|i: int| 0 <= i < done@.len() ==> (#[trigger] done@[i])@ == views[i],
            views + split_on(rest@, t@) == split_on(s@, t@),
        decreases rest@.len(),
    {
        proof {
            lemma_first_run(rest@, t@);
        }
        match find_run(&rest, t) {
            Some(i) => {
                assert(i + t@.len() <= rest@.len());
                assert(i + t.len() <= rest.len());
                let end: usize = i + t.len();
                let piece = crate::text::slice(&rest, 0, i);
                let after = crate::text::tail(&rest, end);
                assert(piece@ =~= rest@.take(i as int));
                proof {
                    assert(split_on(rest@, t@) == seq![rest@.take(i as int)] + split_on(
                        rest@.skip(i + t@.len()),
                        t@,
                    ));
                    assert(views.push(piece@) + split_on(after@, t@) =~= views + split_on(
                        rest@,
                        t@,
                    ));
                    views = views.push(piece@);
                }
                let ghost before = done@;
                done.push(piece);
                assert forall|k: int| 0 <= k < done@.len() implies (#[trigger] done@[k])@ == views[k] by {
                    if k < before.len() {
                        assert(done@[k] == before[k]);
                    }
                }
                rest = after;
            },
            None => {
                let ghost before = done@;
                let last = rest;
                proof {
                    assert(views.push(last@) =~= split_on(s@, t@));
                }
                done.push(last);
                assert forall|k: int| 0 <= k < done@.len() implies (#[trigger] done@[k])@ == split_on(
                    s@,
                    t@,
                )[k] by {
                    if k < before.len() {
                        assert(done@[k] == before[k]);
                    }
                }
                return done;
            },
        }
    }
}

pub open spec fn is_bracket(c: char) -> bool {
    c == '[' || c == ']'
}

pub open spec fn lead_brackets(s: Seq<char>) -> nat
    decreases s.len(),
{
    if s.len() > 0 && is_bracket(s[0]) {
        1 + lead_brackets(s.drop_first())
    } else {
        0
    }
}

pub open spec fn trail_brackets(s: Seq<char>) -> nat
    decreases s.len(),
{
    if s.len() > 0 && is_bracket(s.last()) {
        1 + trail_brackets(s.drop_last())
    } else {
        0
    }
}

/// `s` without its leading and trailing square brackets.
pub open spec fn strip_brackets(s: Seq<char>) -> Seq<char> {
    let front = s.skip(lead_brackets(s) as int);
    front.take(front.len() - trail_brackets(front))
}

proof fn lemma_lead_brackets(s: Seq<char>, k: int)
    requires
        0 <= k <= s.len(),
        forall|j: int| 0 <= j < k ==> is_bracket(#[trigger] s[j]),
        k == s.len() || !is_bracket(s[k]),
    ensures
        lead_brackets(s) == k,
    decreases k,
{
    if k > 0 {
        assert forall|j: int| 0 <= j < k - 1 implies is_bracket(#[trigger] s.drop_first()[j]) by {
            assert(s.drop_first()[j] == s[j + 1]);
        }
        if k < s.len() {
            assert(s.drop_first()[k - 1] == s[k]);
        }
        lemma_lead_brackets(s.drop_first(), k - 1);
    }
}

proof fn lemma_trail_brackets(s: Seq<char>, k: int)
    requires
        0 <= k <= s.len(),
        forall|j: int| s.len() - k <= j < s.len() ==> is_bracket(#[trigger] s[j]),
        k == s.len() || !is_bracket(s[s.len() - k - 1]),
    ensures
        trail_brackets(s) == k,
    decreases k,
{
    if k > 0 {
        let u = s.drop_last();
        assert forall|j: int| u.len() - (k - 1) <= j < u.len() implies is_bracket(#[trigger] u[j]) by {
            assert(u[j] == s[j]);
        }
        if k < s.len() {
            assert(u[u.len() - (k - 1) - 1] == s[s.len() - k - 1]);
        }
        lemma_trail_brackets(u, k - 1);
    }
}

pub fn trim_brackets(s: &Vec<char>) -> (t: Vec<char>)
    ensures
        t@ == strip_brackets(s@),
{
    let mut a: usize = 0;
    while a < s.len() && (s[a] == '[' || s[a] == ']')
        invariant
            a <= s.len(),
            forall|j: int| 0 <= j < a ==> is_bracket(#[trigger] s@[j]),
        decreases s.len() - a,
    {
        a = a + 1;
    }
    proof {
        lemma_lead_brackets(s@, a as int);
    }
    let front = crate::text::tail(s, a);
    let mut b: usize = 0;
    while b < front.len() && (front[front.len() - 1 - b] == '[' || front[front.len() - 1 - b] == ']')
        invariant
            b <= front.len(),
            forall|j: int| front.len() - b <= j < front.len() ==> is_bracket(#[trigger] front@[j]),
        decreases front.len() - b,
    {
        b = b + 1;
    }
    proof {
        lemma_trail_brackets(front@, b as int);
    }
    crate::text::slice(&front, 0, front.len() - b)
}

} // verus!
