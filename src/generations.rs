use vstd::prelude::*;
use vstd::string::StrSliceExecFns;

verus! {

pub open spec fn is_digit(c: char) -> bool {
    '0' <= c <= '9'
}

/// The number that a sequence of decimal digits denotes.
pub open spec fn decimal_value(s: Seq<char>) -> nat
    decreases s.len(),
{
    if s.len() == 0 {
        0
    } else {
        (decimal_value(s.drop_last()) * 10 + (s.last() as int - '0' as int)) as nat
    }
}

/// The generation that a file name `<n>.log` gives: `n` is one or more
/// decimal digits that denote a `u64`.
pub open spec fn log_generation_of(name: Seq<char>) -> Option<u64> {
    let digits = name.subrange(0, name.len() - 4);
    if name.len() > 4 && name.subrange(name.len() - 4, name.len() as int) == seq!['.', 'l', 'o', 'g']
        && (forall|i: int| 0 <= i < digits.len() ==> is_digit(#[trigger] digits[i]))
        && decimal_value(digits) <= u64::MAX {
        Some(decimal_value(digits) as u64)
    } else {
        None
    }
}

proof fn lemma_decimal_prefix_grows(s: Seq<char>, i: int)
    requires
        0 <= i <= s.len(),
        forall|j: int| 0 <= j < s.len() ==> is_digit(#[trigger] s[j]),
    ensures
        decimal_value(s.subrange(0, i)) <= decimal_value(s),
    decreases s.len() - i,
{
    if i < s.len() {
        lemma_decimal_prefix_grows(s, i + 1);
        assert(s.subrange(0, i + 1).drop_last() =~= s.subrange(0, i));
    } else {
        assert(s.subrange(0, i) =~= s);
    }
}

/// The generation of a log file named `name`, if the name has the form `<n>.log`.
pub fn parse_log_file_name(name: &str) -> (r: Option<u64>)
    ensures
        r == log_generation_of(name@),
{
    let n = name.unicode_len();
    if n <= 4 {
        return None;
    }
    let suffix_ok = name.get_char(n - 4) == '.' && name.get_char(n - 3) == 'l' && name.get_char(n - 2)
        == 'o' && name.get_char(n - 1) == 'g';
    let ghost suffix = name@.subrange(n - 4, n as int);
    if !suffix_ok {
        proof {
            assert(suffix[0] == name@[n - 4]);
            assert(suffix[1] == name@[n - 3]);
            assert(suffix[2] == name@[n - 2]);
            assert(suffix[3] == name@[n - 1]);
            assert(suffix != seq!['.', 'l', 'o', 'g']);
        }
        return None;
    }
    assert(suffix =~= seq!['.', 'l', 'o', 'g']);
    let ghost digits = name@.subrange(0, n - 4);
    let mut acc: u64 = 0;
    let mut i: usize = 0;
    while i < n - 4
        invariant
            n == name@.len(),
            n > 4,
            i <= n - 4,
            digits == name@.subrange(0, n - 4),
            forall|j: int| 0 <= j < i ==> is_digit(#[trigger] digits[j]),
            acc as nat == decimal_value(digits.subrange(0, i as int)),
        decreases n - 4 - i,
    {
        let c = name.get_char(i);
        if !('0' <= c && c <= '9') {
            assert(!is_digit(digits[i as int]));
            return None;
        }
        let d = (c as u32 - '0' as u32) as u64;
        assert(digits.subrange(0, i + 1).drop_last() =~= digits.subrange(0, i as int));
        if acc > (u64::MAX - d) / 10 {
            proof {
                assert(acc * 10 + d > u64::MAX) by (nonlinear_arith)
                    requires
                        acc > (u64::MAX - d) / 10,
                        d <= 9,
                ;
                if forall|j: int| 0 <= j < digits.len() ==> is_digit(#[trigger] digits[j]) {
                    lemma_decimal_prefix_grows(digits, i + 1);
                }
            }
            return None;
        }
        acc = acc * 10 + d;
        i = i + 1;
    }
    assert(digits.subrange(0, (n - 4) as int) =~= digits);
    Some(acc)
}

pub open spec fn strictly_ascending(s: Seq<u64>) -> bool {
    forall|i: int, j: int| 0 <= i < j < s.len() ==> s[i] < s[j]
}

fn insert_sorted(v: &mut Vec<u64>, g: u64)
    requires
        strictly_ascending(old(v)@),
    ensures
        strictly_ascending(final(v)@),
        final(v)@.to_set() == old(v)@.to_set().insert(g),
{
    let mut pos: usize = 0;
    while pos < v.len() && v[pos] < g
        invariant
            pos <= v@.len(),
            v@ == old(v)@,
            forall|j: int| 0 <= j < pos ==> v@[j] < g,
        decreases v@.len() - pos,
    {
        pos = pos + 1;
    }
    if pos < v.len() && v[pos] == g {
        assert(v@[pos as int] == g);
        assert(v@.to_set() =~= old(v)@.to_set().insert(g));
        return;
    }
    let ghost before = v@;
    v.insert(pos, g);
    proof {
        assert forall|x: u64| v@.to_set().contains(x) <==> before.to_set().insert(g).contains(x) by {
            if v@.contains(x) {
                let k = choose|k: int| 0 <= k < v@.len() && v@[k] == x;
                if k < pos {
                    assert(before[k] == x);
                } else if k > pos {
                    assert(before[k - 1] == x);
                }
            }
            if before.contains(x) {
                let k = choose|k: int| 0 <= k < before.len() && before[k] == x;
                if k < pos {
                    assert(v@[k] == x);
                } else {
                    assert(v@[k + 1] == x);
                }
            }
            if x == g {
                assert(v@[pos as int] == g);
            }
        }
        assert(v@.to_set() =~= before.to_set().insert(g));
    }
}

/// The generations of the log files among `names`, each once, in ascending order.
pub fn log_generations(names: &Vec<String>) -> (r: Vec<u64>)
    ensures
        strictly_ascending(r@),
        forall|g: u64|
            r@.contains(g) <==> exists|i: int|
                0 <= i < names@.len() && log_generation_of(#[trigger] names@[i]@) == Some(g),
{
    let mut r: Vec<u64> = Vec::new();
    let mut i: usize = 0;
    while i < names.len()
        invariant
            i <= names@.len(),
            strictly_ascending(r@),
            forall|g: u64|
                r@.contains(g) <==> exists|j: int|
                    0 <= j < i && log_generation_of(#[trigger] names@[j]@) == Some(g),
        decreases names@.len() - i,
    {
        let parsed = parse_log_file_name(names[i].as_str());
        let ghost before = r@;
        if let Some(g) = parsed {
            insert_sorted(&mut r, g);
            assert(forall|x: u64| r@.contains(x) <==> r@.to_set().contains(x));
            assert(forall|x: u64| before.contains(x) <==> before.to_set().contains(x));
        }
        proof {
            assert forall|x: u64| r@.contains(x) <==> exists|j: int|
                0 <= j < i + 1 && log_generation_of(#[trigger] names@[j]@) == Some(x) by {
                if r@.contains(x) && !before.contains(x) {
                    assert(log_generation_of(names@[i as int]@) == Some(x));
                }
                if exists|j: int| 0 <= j < i + 1 && log_generation_of(#[trigger] names@[j]@) == Some(x) {
                    let j = choose|j: int| 0 <= j < i + 1 && log_generation_of(#[trigger] names@[j]@) == Some(x);
                    if j < i {
                        assert(before.contains(x));
                    }
                }
            }
        }
        i = i + 1;
    }
    r
}

/// The generation after the largest of `generations`, or 1 when there is none;
/// `None` when the largest is `u64::MAX`.
pub fn next_generation(generations: &Vec<u64>) -> (r: Option<u64>)
    ensures
        match r {
            Some(n) => {
                &&& forall|i: int| 0 <= i < generations@.len() ==> generations@[i] < n
                &&& (generations@.len() == 0 && n == 1) || (exists|i: int|
                    0 <= i < generations@.len() && generations@[i] + 1 == n)
            },
            None => exists|i: int| 0 <= i < generations@.len() && generations@[i] == u64::MAX,
        },
{
    if generations.len() == 0 {
        return Some(1);
    }
    let mut largest: u64 = generations[0];
    let mut at: usize = 0;
    let mut i: usize = 1;
    while i < generations.len()
        invariant
            1 <= i <= generations@.len(),
            at < i,
            generations@[at as int] == largest,
            forall|j: int| 0 <= j < i ==> generations@[j] <= largest,
        decreases generations@.len() - i,
    {
        if generations[i] > largest {
            largest = generations[i];
            at = i;
        }
        i = i + 1;
    }
    if largest == u64::MAX {
        None
    } else {
        Some(largest + 1)
    }
}

/// Holds of the generations older than `c`.
pub open spec fn older_than(c: u64) -> spec_fn(u64) -> bool {
    |g: u64| g < c
}

/// The generations older than `compaction_generation`, in their order: the log
/// files that compaction leaves to delete.
pub fn stale_generations(generations: &Vec<u64>, compaction_generation: u64) -> (r: Vec<u64>)
    ensures
        r@ == generations@.filter(older_than(compaction_generation)),
{
    let mut r: Vec<u64> = Vec::new();
    let mut i: usize = 0;
    while i < generations.len()
        invariant
            i <= generations@.len(),
            r@ == generations@.subrange(0, i as int).filter(older_than(compaction_generation)),
        decreases generations@.len() - i,
    {
        let ghost s = generations@.subrange(0, i + 1);
        let ghost before = r@;
        proof {
            assert(s.drop_last() =~= generations@.subrange(0, i as int));
            reveal(Seq::filter);
            assert(s.last() == generations@[i as int]);
            assert(s.filter(older_than(compaction_generation)) == (if older_than(compaction_generation)(s.last()) {
                s.drop_last().filter(older_than(compaction_generation)).push(s.last())
            } else {
                s.drop_last().filter(older_than(compaction_generation))
            }));
        }
        if generations[i] < compaction_generation {
            r.push(generations[i]);
            assert(older_than(compaction_generation)(s.last()));
            assert(r@ == before.push(s.last()));
        } else {
            assert(!older_than(compaction_generation)(s.last()));
        }
        assert(r@ == s.filter(older_than(compaction_generation)));
        i = i + 1;
    }
    assert(generations@.subrange(0, i as int) =~= generations@);
    r
}

} // verus!
