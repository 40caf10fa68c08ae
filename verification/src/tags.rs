//! Fragment tags: text labels such as `"parity_L2"` or `"src_0_17"`, and
//! the numbers they carry.
use vstd::prelude::*;
use vstd::string::StrSliceExecFns;
use crate::text::{dec, digit, usize_to_string, u64_to_string};

verus! {

pub open spec fn is_digit(c: char) -> bool {
    '0' <= c && c <= '9'
}

pub open spec fn all_digits(s: Seq<char>) -> bool {
    forall|i: int| 0 <= i < s.len() ==> #[trigger] is_digit(s[i])
}

/// The number written by a run of decimal digits.
pub open spec fn digits_value(s: Seq<char>) -> nat
    decreases s.len(),
{
    if s.len() == 0 {
        0
    } else {
        digits_value(s.drop_last()) * 10 + (s.last() as nat - '0' as nat) as nat
    }
}

/// What `str::parse` gives for an unsigned integer type whose largest value
/// is `max`: an optional `+`, then one or more decimal digits whose value
/// fits.
pub open spec fn parse_unsigned(s: Seq<char>, max: nat) -> Option<nat> {
    let body = if s.len() > 0 && s[0] == '+' { s.drop_first() } else { s };
    if body.len() > 0 && all_digits(body) && digits_value(body) <= max {
        Some(digits_value(body))
    } else {
        None
    }
}

pub open spec fn starts_with(s: Seq<char>, p: Seq<char>) -> bool {
    s.len() >= p.len() && s.take(p.len() as int) == p
}

/// The two parts of `s` around its only `_`, if it has exactly one.
pub open spec fn split_pair(s: Seq<char>) -> Option<(Seq<char>, Seq<char>)> {
    if exists|k: int| 0 <= k < s.len() && s[k] == '_' && (forall|j: int| 0 <= j < s.len() && j != k ==> s[j] != '_') {
        let k = choose|k: int| 0 <= k < s.len() && s[k] == '_' && (forall|j: int| 0 <= j < s.len() && j != k ==> s[j] != '_');
        Some((s.take(k), s.skip(k + 1)))
    } else {
        None
    }
}

/// The number after the first tag with this prefix whose rest parses (as a
/// number up to `max`), if any.
pub open spec fn first_number(tags: Seq<Seq<char>>, prefix: Seq<char>, max: nat) -> Option<nat>
    decreases tags.len(),
{
    if tags.len() == 0 {
        None
    } else if starts_with(tags[0], prefix) && parse_unsigned(tags[0].skip(prefix.len() as int), max) is Some {
        parse_unsigned(tags[0].skip(prefix.len() as int), max)
    } else {
        first_number(tags.drop_first(), prefix, max)
    }
}

/// The two numbers after the first tag with this prefix whose rest is two
/// numbers joined by `_` (up to `max1` and `max2`), if any.
pub open spec fn first_pair(tags: Seq<Seq<char>>, prefix: Seq<char>, max1: nat, max2: nat) -> Option<(nat, nat)>
    decreases tags.len(),
{
    if tags.len() == 0 {
        None
    } else if starts_with(tags[0], prefix) && pair_of(tags[0].skip(prefix.len() as int), max1, max2) is Some {
        pair_of(tags[0].skip(prefix.len() as int), max1, max2)
    } else {
        first_pair(tags.drop_first(), prefix, max1, max2)
    }
}

/// The two numbers of `a_b`, if both parts parse.
pub open spec fn pair_of(s: Seq<char>, max1: nat, max2: nat) -> Option<(nat, nat)> {
    match split_pair(s) {
        Some((a, b)) => match (parse_unsigned(a, max1), parse_unsigned(b, max2)) {
            (Some(x), Some(y)) => Some((x, y)),
            _ => None,
        },
        None => None,
    }
}

/// The pairs of numbers of every tag with this prefix whose rest is two
/// numbers joined by `_`, in order.
pub open spec fn all_pairs(tags: Seq<Seq<char>>, prefix: Seq<char>, max1: nat, max2: nat) -> Seq<(nat, nat)>
    decreases tags.len(),
{
    if tags.len() == 0 {
        Seq::empty()
    } else {
        let rest = all_pairs(tags.drop_last(), prefix, max1, max2);
        let t = tags.last();
        if starts_with(t, prefix) && pair_of(t.skip(prefix.len() as int), max1, max2) is Some {
            rest.push(pair_of(t.skip(prefix.len() as int), max1, max2)->0)
        } else {
            rest
        }
    }
}

/// Whether some tag starts with this prefix.
pub open spec fn any_prefix(tags: Seq<Seq<char>>, prefix: Seq<char>) -> bool {
    exists|i: int| 0 <= i < tags.len() && starts_with(#[trigger] tags[i], prefix)
}

pub open spec fn tag_views(tags: Seq<String>) -> Seq<Seq<char>> {
    tags.map_values(|t: String| t@)
}

/// The characters of a string.
pub fn chars_of(s: &str) -> (r: Vec<char>)
    ensures
        r@ == s@,
{
    let n = s.unicode_len();
    let mut r: Vec<char> = Vec::new();
    let mut i: usize = 0;
    while i < n
        invariant
            n == s@.len(),
            i <= n,
            r@ == s@.take(i as int),
        decreases n - i,
    {
        let c = s.get_char(i);
        r.push(c);
        assert(r@ =~= s@.take(i + 1));
        i = i + 1;
    }
    assert(s@.take(n as int) =~= s@);
    r
}

fn has_prefix(s: &Vec<char>, p: &Vec<char>) -> (r: bool)
    ensures
        r == starts_with(s@, p@),
{
    if s.len() < p.len() {
        return false;
    }
    let mut i: usize = 0;
    while i < p.len()
        invariant
            i <= p@.len() <= s@.len(),
            forall|j: int| 0 <= j < i ==> s@[j] == p@[j],
        decreases p@.len() - i,
    {
        if s[i] != p[i] {
            assert(s@.take(p@.len() as int)[i as int] != p@[i as int]);
            return false;
        }
        i = i + 1;
    }
    assert(s@.take(p@.len() as int) =~= p@);
    true
}

/// `str::parse` into an unsigned type whose largest value is `max`.
pub fn parse_number(s: &str, max: u64) -> (r: Option<u64>)
    ensures
        match parse_unsigned(s@, max as nat) {
            Some(v) => r == Some(v as u64),
            None => r is None,
        },
        match r {
            Some(v) => v <= max,
            None => true,
        },
{
    let c = chars_of(s);
    assert(c@.subrange(0, c@.len() as int) == s@);
    parse_range(&c, 0, c.len(), max)
}

/// `str::parse` into an unsigned number no larger than `max` (the type's
/// largest value), on the characters from `start` to `end`.
fn parse_range(s: &Vec<char>, start: usize, end: usize, max: u64) -> (r: Option<u64>)
    requires
        start <= end <= s@.len(),
    ensures
        match parse_unsigned(s@.subrange(start as int, end as int), max as nat) {
            Some(v) => r == Some(v as u64),
            None => r is None,
        },
        match r {
            Some(v) => v <= max,
            None => true,
        },
{
    let ghost t = s@.subrange(start as int, end as int);
    let mut i = start;
    if i < end && s[i] == '+' {
        i = i + 1;
    }
    let ghost body = s@.subrange(i as int, end as int);
    assert(body == (if t.len() > 0 && t[0] == '+' { t.drop_first() } else { t }));
    if i >= end {
        return None;
    }
    let mut v: u64 = 0;
    let mut j = i;
    while j < end
        invariant
            i <= j <= end <= s@.len(),
            i < end,
            t == s@.subrange(start as int, end as int),
            body == (if t.len() > 0 && t[0] == '+' { t.drop_first() } else { t }),
            body == s@.subrange(i as int, end as int),
            all_digits(s@.subrange(i as int, j as int)),
            v == digits_value(s@.subrange(i as int, j as int)),
            v <= max,
        decreases end - j,
    {
        let c = s[j];
        let ghost pre = s@.subrange(i as int, j as int);
        let ghost next = s@.subrange(i as int, j + 1);
        assert(next.drop_last() == pre);
        assert(next.last() == c);
        if c < '0' || c > '9' {
            proof {
                assert(!is_digit(body[j - i]));
            }
            return None;
        }
        let d: u64 = (c as u32 - '0' as u32) as u64;
        let q = max / 10;
        let rr = max % 10;
        if v > q || (v == q && d > rr) {
            proof {
                assert(digits_value(next) == v * 10 + d);
                assert(v * 10 + d > max) by (nonlinear_arith)
                    requires
                        v > q || (v == q && d > rr),
                        q == max / 10,
                        rr == max % 10,
                ;
                if all_digits(body) {
                    lemma_digits_value_prefix_bound(body, (j + 1 - i) as nat);
                    assert(body.take(j + 1 - i) == next);
                }
            }
            return None;
        }
        assert(v * 10 + d <= max) by (nonlinear_arith)
            requires
                v <= q,
                v < q || d <= rr,
                q == max / 10,
                rr == max % 10,
                d <= 9,
        ;
        v = v * 10 + d;
        j = j + 1;
        assert(all_digits(s@.subrange(i as int, j as int)));
    }
    assert(s@.subrange(i as int, j as int) == body);
    Some(v)
}

proof fn lemma_digits_value_prefix_bound(s: Seq<char>, k: nat)
    requires
        k <= s.len(),
        all_digits(s),
    ensures
        digits_value(s.take(k as int)) <= digits_value(s),
    decreases s.len() - k,
{
    if k < s.len() {
        lemma_digits_value_prefix_bound(s, k + 1);
        let a = s.take(k as int + 1);
        assert(a.drop_last() == s.take(k as int));
        assert(is_digit(a.last()));
    } else {
        assert(s.take(k as int) == s);
    }
}

/// The position of the only `_` of the characters from `start`, if there
/// is exactly one.
fn only_underscore(s: &Vec<char>, start: usize) -> (r: Option<usize>)
    requires
        start <= s@.len(),
    ensures
        match split_pair(s@.skip(start as int)) {
            Some((a, b)) => (r matches Some(k) && start <= k < s@.len() && a == s@.subrange(start as int, k as int)
                && b == s@.subrange(k + 1, s@.len() as int)),
            None => r is None,
        },
        match r {
            Some(k) => start <= k < s@.len(),
            None => true,
        },
{
    let ghost t = s@.skip(start as int);
    let mut found: Option<usize> = None;
    let mut count: usize = 0;
    let mut j = start;
    while j < s.len()
        invariant
            start <= j <= s@.len(),
            t == s@.skip(start as int),
            count <= j - start,
            count == 0 ==> found is None && forall|q: int| start <= q < j ==> s@[q] != '_',
            count >= 1 ==> (found matches Some(k) && start <= k < j && s@[k as int] == '_'
                && forall|q: int| start <= q < k ==> s@[q] != '_'),
            count == 1 ==> (found matches Some(k) && forall|q: int| start <= q < j && q != k ==> s@[q] != '_'),
            count >= 2 ==> exists|a: int, b: int| start <= a < b < j && s@[a] == '_' && s@[b] == '_',
        decreases s@.len() - j,
    {
        if s[j] == '_' {
            if count == 0 {
                found = Some(j);
            } else {
                assert(found matches Some(k) && s@[k as int] == '_' && start <= k < j);
            }
            count = count + 1;
        }
        j = j + 1;
    }
    if count == 1 {
        let k = found.unwrap();
        proof {
            let kk = k - start;
            assert(t[kk] == '_');
            assert forall|q: int| 0 <= q < t.len() && q != kk implies t[q] != '_' by {
                assert(t[q] == s@[q + start]);
            }
            let c = choose|c: int| 0 <= c < t.len() && t[c] == '_' && (forall|q: int| 0 <= q < t.len() && q != c ==> t[q] != '_');
            if c != kk {
                assert(t[kk] != '_');
            }
            assert(t.take(kk) =~= s@.subrange(start as int, k as int));
            assert(t.skip(kk + 1) =~= s@.subrange(k + 1, s@.len() as int));
        }
        Some(k)
    } else {
        proof {
            if count == 0 {
                assert forall|c: int| 0 <= c < t.len() implies t[c] != '_' by {
                    assert(t[c] == s@[c + start]);
                }
            } else {
                let (a, b) = choose|a: int, b: int| start <= a < b < s@.len() && s@[a] == '_' && s@[b] == '_';
                assert forall|c: int| 0 <= c < t.len() && t[c] == '_' implies !(forall|q: int| 0 <= q < t.len() && q != c ==> t[q] != '_') by {
                    assert(t[a - start] == '_');
                    assert(t[b - start] == '_');
                }
            }
        }
        None
    }
}

/// The number after the first tag with this prefix that carries one
/// (`strip_prefix` then `parse`), if any.
pub fn first_number_exec(tags: &Vec<String>, prefix: &str, max: u64) -> (r: Option<u64>)
    ensures
        match first_number(tag_views(tags@), prefix@, max as nat) {
            Some(v) => r == Some(v as u64),
            None => r is None,
        },
        match r {
            Some(v) => v <= max,
            None => true,
        },
        match first_number(tag_views(tags@), prefix@, max as nat) {
            Some(v) => v <= max,
            None => true,
        },
{
    proof {
        lemma_first_number_bound(tag_views(tags@), prefix@, max as nat);
    }
    let p = chars_of(prefix);
    let mut i: usize = 0;
    assert(tag_views(tags@).skip(0) == tag_views(tags@));
    while i < tags.len()
        invariant
            i <= tags@.len(),
            p@ == prefix@,
            first_number(tag_views(tags@), prefix@, max as nat) == first_number(tag_views(tags@).skip(i as int), prefix@, max as nat),
        decreases tags@.len() - i,
    {
        let t = chars_of(tags[i].as_str());
        let ghost rest = tag_views(tags@).skip(i as int);
        assert(rest[0] == t@);
        assert(rest.drop_first() == tag_views(tags@).skip(i + 1));
        if has_prefix(&t, &p) {
            let v = parse_range(&t, p.len(), t.len(), max);
            assert(t@.subrange(p@.len() as int, t@.len() as int) == t@.skip(p@.len() as int));
            if v.is_some() {
                return v;
            }
        }
        i = i + 1;
    }
    assert(tag_views(tags@).skip(i as int).len() == 0);
    None
}

/// The two numbers of the first tag with this prefix whose rest is
/// `<a>_<b>` with both parts numbers, if any.
pub fn first_pair_exec(tags: &Vec<String>, prefix: &str, max1: u64, max2: u64) -> (r: Option<(u64, u64)>)
    ensures
        match first_pair(tag_views(tags@), prefix@, max1 as nat, max2 as nat) {
            Some((a, b)) => r == Some((a as u64, b as u64)),
            None => r is None,
        },
        match r {
            Some((a, b)) => a <= max1 && b <= max2,
            None => true,
        },
        match first_pair(tag_views(tags@), prefix@, max1 as nat, max2 as nat) {
            Some((a, b)) => a <= max1 && b <= max2,
            None => true,
        },
{
    proof {
        lemma_first_pair_bound(tag_views(tags@), prefix@, max1 as nat, max2 as nat);
    }
    let p = chars_of(prefix);
    let mut i: usize = 0;
    assert(tag_views(tags@).skip(0) == tag_views(tags@));
    while i < tags.len()
        invariant
            i <= tags@.len(),
            p@ == prefix@,
            first_pair(tag_views(tags@), prefix@, max1 as nat, max2 as nat)
                == first_pair(tag_views(tags@).skip(i as int), prefix@, max1 as nat, max2 as nat),
        decreases tags@.len() - i,
    {
        let t = chars_of(tags[i].as_str());
        let ghost rest = tag_views(tags@).skip(i as int);
        assert(rest[0] == t@);
        assert(rest.drop_first() == tag_views(tags@).skip(i + 1));
        if has_prefix(&t, &p) {
            let v = pair_in(&t, p.len(), max1, max2);
            if v.is_some() {
                return v;
            }
        }
        i = i + 1;
    }
    assert(tag_views(tags@).skip(i as int).len() == 0);
    None
}

fn pair_in(t: &Vec<char>, start: usize, max1: u64, max2: u64) -> (r: Option<(u64, u64)>)
    requires
        start <= t@.len(),
    ensures
        match pair_of(t@.skip(start as int), max1 as nat, max2 as nat) {
            Some((a, b)) => r == Some((a as u64, b as u64)),
            None => r is None,
        },
        match r {
            Some((a, b)) => a <= max1 && b <= max2,
            None => true,
        },
{
    match only_underscore(t, start) {
        Some(k) => {
            assert(k < t@.len());
            assert(t@.len() == t.len());
            let a = parse_range(t, start, k, max1);
            let b = parse_range(t, k + 1, t.len(), max2);
            match (a, b) {
                (Some(x), Some(y)) => Some((x, y)),
                _ => None,
            }
        },
        None => None,
    }
}

proof fn lemma_first_number_bound(tags: Seq<Seq<char>>, prefix: Seq<char>, max: nat)
    ensures
        match first_number(tags, prefix, max) {
            Some(v) => v <= max,
            None => true,
        },
    decreases tags.len(),
{
    if tags.len() > 0 {
        lemma_first_number_bound(tags.drop_first(), prefix, max);
    }
}

proof fn lemma_first_pair_bound(tags: Seq<Seq<char>>, prefix: Seq<char>, max1: nat, max2: nat)
    ensures
        match first_pair(tags, prefix, max1, max2) {
            Some((a, b)) => a <= max1 && b <= max2,
            None => true,
        },
    decreases tags.len(),
{
    if tags.len() > 0 {
        lemma_first_pair_bound(tags.drop_first(), prefix, max1, max2);
    }
}

/// The pairs of numbers of every tag with this prefix whose rest is
/// `<a>_<b>` with both parts numbers, in order.
pub fn all_pairs_exec(tags: &Vec<String>, prefix: &str, max1: u64, max2: u64) -> (r: Vec<(u64, u64)>)
    ensures
        r@.len() == all_pairs(tag_views(tags@), prefix@, max1 as nat, max2 as nat).len(),
        forall|i: int| 0 <= i < r@.len() ==> r@[i].0 <= max1 && r@[i].1 <= max2,
        forall|i: int| 0 <= i < r@.len() ==> r@[i].0 == all_pairs(tag_views(tags@), prefix@, max1 as nat, max2 as nat)[i].0
            && r@[i].1 == all_pairs(tag_views(tags@), prefix@, max1 as nat, max2 as nat)[i].1,
{
    let p = chars_of(prefix);
    let mut out: Vec<(u64, u64)> = Vec::new();
    let mut i: usize = 0;
    while i < tags.len()
        invariant
            i <= tags@.len(),
            p@ == prefix@,
            out@.len() == all_pairs(tag_views(tags@).take(i as int), prefix@, max1 as nat, max2 as nat).len(),
            forall|k: int| 0 <= k < out@.len() ==> out@[k].0 <= max1 && out@[k].1 <= max2,
            forall|k: int| 0 <= k < out@.len() ==> out@[k].0 == all_pairs(tag_views(tags@).take(i as int), prefix@, max1 as nat, max2 as nat)[k].0
                && out@[k].1 == all_pairs(tag_views(tags@).take(i as int), prefix@, max1 as nat, max2 as nat)[k].1,
        decreases tags@.len() - i,
    {
        let t = chars_of(tags[i].as_str());
        proof {
            let tv = tag_views(tags@);
            assert(tv.take(i + 1).drop_last() == tv.take(i as int));
            assert(tv.take(i + 1).last() == t@);
        }
        if has_prefix(&t, &p) {
            let v = pair_in(&t, p.len(), max1, max2);
            match v {
                Some(x) => {
                    out.push(x);
                },
                None => {},
            }
        }
        i = i + 1;
    }
    assert(tag_views(tags@).take(tags@.len() as int) == tag_views(tags@));
    out
}

/// Whether some tag starts with this prefix.
pub fn any_prefix_exec(tags: &Vec<String>, prefix: &str) -> (r: bool)
    ensures
        r == any_prefix(tag_views(tags@), prefix@),
{
    let p = chars_of(prefix);
    let mut i: usize = 0;
    while i < tags.len()
        invariant
            i <= tags@.len(),
            p@ == prefix@,
            forall|k: int| 0 <= k < i ==> !starts_with(#[trigger] tag_views(tags@)[k], prefix@),
        decreases tags@.len() - i,
    {
        let t = chars_of(tags[i].as_str());
        assert(tag_views(tags@)[i as int] == t@);
        if has_prefix(&t, &p) {
            return true;
        }
        i = i + 1;
    }
    false
}

/// `prefix` followed by `n` in decimal.
pub fn numbered(prefix: &str, n: u64) -> (r: String)
    ensures
        r@ == prefix@ + dec(n as nat),
{
    let mut s = String::from_str(prefix);
    s.append(u64_to_string(n).as_str());
    s
}

/// `prefix`, `a` in decimal, `_`, `b` in decimal.
pub fn numbered_pair(prefix: &str, a: u64, b: u64) -> (r: String)
    ensures
        r@ == prefix@ + dec(a as nat) + "_"@ + dec(b as nat),
{
    let mut s = String::from_str(prefix);
    s.append(u64_to_string(a).as_str());
    s.append("_");
    s.append(u64_to_string(b).as_str());
    s
}

/// Decimal text is digits, and reads back as the number.
pub proof fn lemma_dec_digits(n: nat)
    ensures
        all_digits(dec(n)),
        dec(n).len() > 0,
        digits_value(dec(n)) == n,
    decreases n,
{
    assert('0' as nat == 48);
    if n < 10 {
        assert(digit(n) as nat == 48 + n);
        assert(is_digit(dec(n)[0]));
        assert(dec(n).drop_last() =~= Seq::<char>::empty());
        assert(digits_value(dec(n)) == digits_value(dec(n).drop_last()) * 10 + (dec(n).last() as nat - '0' as nat) as nat);
    } else {
        assert(digit(n % 10) as nat == 48 + n % 10);
        assert((n / 10) * 10 + n % 10 == n);
        lemma_dec_digits(n / 10);
        let d = dec(n);
        assert(d.drop_last() == dec(n / 10));
        assert(d.last() == digit(n % 10));
        assert forall|i: int| 0 <= i < d.len() implies #[trigger] is_digit(d[i]) by {
            if i < d.len() - 1 {
                assert(d[i] == dec(n / 10)[i]);
            }
        }
        assert(digits_value(d) == digits_value(d.drop_last()) * 10 + (d.last() as nat - '0' as nat) as nat);
        assert(digits_value(d) == (n / 10) * 10 + n % 10);
    }
}

/// A decimal number no larger than `max` parses back to itself.
pub proof fn lemma_parse_dec(n: nat, max: nat)
    requires
        n <= max,
    ensures
        parse_unsigned(dec(n), max) == Some(n),
{
    lemma_dec_digits(n);
    let d = dec(n);
    assert(d[0] != '+') by {
        assert(is_digit(d[0]));
    }
}

proof fn lemma_split_at(s: Seq<char>, k: int)
    requires
        0 <= k < s.len(),
        s[k] == '_',
        forall|j: int| 0 <= j < s.len() && j != k ==> s[j] != '_',
    ensures
        split_pair(s) == Some((s.take(k), s.skip(k + 1))),
{
    let c = choose|c: int| 0 <= c < s.len() && s[c] == '_' && (forall|j: int| 0 <= j < s.len() && j != c ==> s[j] != '_');
    if c != k {
        assert(s[k] != '_');
    }
}

/// `<a>_<b>` in decimal splits back into the two numbers.
pub proof fn lemma_pair_dec(a: nat, b: nat, max1: nat, max2: nat)
    requires
        a <= max1,
        b <= max2,
    ensures
        pair_of(dec(a) + "_"@ + dec(b), max1, max2) == Some((a, b)),
{
    lemma_dec_digits(a);
    lemma_dec_digits(b);
    lemma_parse_dec(a, max1);
    lemma_parse_dec(b, max2);
    reveal_strlit("_");
    let da = dec(a);
    let db = dec(b);
    let s = da + "_"@ + db;
    let k = da.len() as int;
    assert(s[k] == '_');
    assert forall|j: int| 0 <= j < s.len() && j != k implies s[j] != '_' by {
        if j < k {
            assert(s[j] == da[j]);
            assert(is_digit(da[j]));
        } else {
            assert(s[j] == db[j - k - 1]);
            assert(is_digit(db[j - k - 1]));
        }
    }
    lemma_split_at(s, k);
    assert(s.take(k) =~= da);
    assert(s.skip(k + 1) =~= db);
}

} // verus!
