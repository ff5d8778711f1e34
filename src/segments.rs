use vstd::prelude::*;
use vstd::string::StrSliceExecFns;

verus! {

/// The characters that occur in exactly one of `a` and `b`.
pub open spec fn lone_chars(a: Seq<char>, b: Seq<char>) -> Set<char> {
    Set::new(|c: char| a.contains(c) != b.contains(c))
}

/// The characters of `s`, in order.
fn chars_of(s: &str) -> (r: Vec<char>)
    ensures
        r@ == s@,
{
    let n = s.unicode_len();
    let mut out: Vec<char> = Vec::new();
    let mut i: usize = 0;
    while i < n
        invariant
            n == s@.len(),
            i <= n,
            out@ == s@.subrange(0, i as int),
        decreases n - i,
    {
        out.push(s.get_char(i));
        i = i + 1;
        assert(out@ =~= s@.subrange(0, i as int));
    }
    assert(out@ =~= s@);
    out
}

fn holds(s: &Vec<char>, c: char) -> (r: bool)
    ensures
        r == s@.contains(c),
{
    let mut i: usize = 0;
    while i < s.len()
        invariant
            i <= s@.len(),
            forall|j: int| 0 <= j < i ==> s@[j] != c,
        decreases s@.len() - i,
    {
        if s[i] == c {
            return true;
        }
        i = i + 1;
    }
    false
}

/// The first character of `a` that `b` lacks.
fn first_missing(a: &Vec<char>, b: &Vec<char>) -> (r: Option<char>)
    ensures
        r matches Some(c) ==> a@.contains(c) && !b@.contains(c),
        r is None ==> forall|j: int| 0 <= j < a@.len() ==> b@.contains(#[trigger] a@[j]),
{
    let mut i: usize = 0;
    while i < a.len()
        invariant
            i <= a@.len(),
            forall|j: int| 0 <= j < i ==> b@.contains(#[trigger] a@[j]),
        decreases a@.len() - i,
    {
        if !holds(b, a[i]) {
            return Some(a[i]);
        }
        i = i + 1;
    }
    None
}

/// The one character that occurs in just one of the two patterns.
pub fn extra_char(a: &str, b: &str) -> (r: char)
    requires
        exists|c: char| lone_chars(a@, b@) == set![c],
    ensures
        lone_chars(a@, b@) == set![r],
{
    let a_chars = chars_of(a);
    let b_chars = chars_of(b);
    let ghost c = choose|c: char| lone_chars(a@, b@) == set![c];
    match first_missing(&a_chars, &b_chars) {
        Some(x) => {
            assert(lone_chars(a@, b@).contains(x));
            x
        },
        None => {
            match first_missing(&b_chars, &a_chars) {
                Some(x) => {
                    assert(lone_chars(a@, b@).contains(x));
                    x
                },
                None => {
                    proof {
                        assert(lone_chars(a@, b@).contains(c));
                        if a@.contains(c) {
                            let j = choose|j: int| 0 <= j < a@.len() && a@[j] == c;
                            assert(b@.contains(a_chars@[j]));
                        } else {
                            let j = choose|j: int| 0 <= j < b@.len() && b@[j] == c;
                            assert(a@.contains(b_chars@[j]));
                        }
                    }
                    a_chars[0]
                },
            }
        },
    }
}

/// Every character of `shorter` occurs in `longer`.
pub fn contains_all_chars(longer: &str, shorter: &str) -> (r: bool)
    ensures
        r == (shorter@.to_set() <= longer@.to_set()),
{
    let l = chars_of(longer);
    let s = chars_of(shorter);
    let r = first_missing(&s, &l).is_none();
    proof {
        if r {
            assert forall|c: char| shorter@.to_set().contains(c) implies longer@.to_set().contains(c) by {
                let j = choose|j: int| 0 <= j < shorter@.len() && shorter@[j] == c;
                assert(l@.contains(s@[j]));
            }
        } else {
            let c = choose|c: char| s@.contains(c) && !l@.contains(c);
            assert(shorter@.to_set().contains(c));
        }
    }
    r
}

/// The characters of `longer` that `shorter` lacks, each once, in order of first occurrence.
pub fn subtract(longer: &str, shorter: &str) -> (r: Vec<char>)
    ensures
        r@.to_set() == longer@.to_set().difference(shorter@.to_set()),
        r@.no_duplicates(),
{
    let l = chars_of(longer);
    let s = chars_of(shorter);
    let mut out: Vec<char> = Vec::new();
    let mut i: usize = 0;
    while i < l.len()
        invariant
            i <= l@.len(),
            l@ == longer@,
            s@ == shorter@,
            out@.no_duplicates(),
            forall|c: char| #[trigger] out@.contains(c) <==> (l@.subrange(0, i as int).contains(c) && !s@.contains(c)),
        decreases l@.len() - i,
    {
        let c = l[i];
        let ghost old_out = out@;
        if !holds(&s, c) && !holds(&out, c) {
            out.push(c);
        }
        proof {
            let next = l@.subrange(0, i + 1);
            let prev = l@.subrange(0, i as int);
            assert forall|d: char| #[trigger] out@.contains(d) <==> (next.contains(d) && !s@.contains(d)) by {
                assert(old_out.contains(d) <==> (prev.contains(d) && !s@.contains(d)));
                if out@ != old_out {
                    assert(out@ == old_out.push(c));
                    if old_out.contains(d) {
                        let j = choose|j: int| 0 <= j < old_out.len() && old_out[j] == d;
                        assert(out@[j] == d);
                    }
                    if d == c {
                        assert(out@[old_out.len() as int] == d);
                    }
                    if out@.contains(d) && d != c {
                        let j = choose|j: int| 0 <= j < out@.len() && out@[j] == d;
                        assert(old_out[j] == d);
                    }
                }
                if next.contains(d) && d != c {
                    let j = choose|j: int| 0 <= j < next.len() && next[j] == d;
                    assert(prev[j] == d);
                }
                if prev.contains(d) {
                    let j = choose|j: int| 0 <= j < prev.len() && prev[j] == d;
                    assert(next[j] == d);
                }
                assert(next[i as int] == c);
            }
        }
        i = i + 1;
    }
    assert(l@.subrange(0, l@.len() as int) =~= l@);
    assert(out@.to_set() =~= longer@.to_set().difference(shorter@.to_set()));
    out
}

} // verus!
