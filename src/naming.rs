use vstd::prelude::*;

verus! {

/// Separators of the directory components in an entry name.
pub open spec fn is_separator(c: char) -> bool {
    c == '/' || c == '\\'
}

/// Where the last component of `s` starts: just after its last separator.
pub open spec fn name_start(s: Seq<char>) -> int
    decreases s.len(),
{
    if s.len() == 0 {
        0
    } else if is_separator(s.last()) {
        s.len() as int
    } else {
        name_start(s.drop_last())
    }
}

/// The entry name without its directory components.
pub open spec fn basename(s: Seq<char>) -> Seq<char> {
    s.subrange(name_start(s), s.len() as int)
}

proof fn lemma_name_start_bounds(s: Seq<char>)
    ensures
        0 <= name_start(s) <= s.len(),
        forall|k: int| name_start(s) <= k < s.len() ==> !is_separator(#[trigger] s[k]),
        name_start(s) > 0 ==> is_separator(s[name_start(s) - 1]),
    decreases s.len(),
{
    if s.len() > 0 && !is_separator(s.last()) {
        lemma_name_start_bounds(s.drop_last());
        assert forall|k: int| name_start(s) <= k < s.len() implies !is_separator(#[trigger] s[k]) by {
            if k < s.len() - 1 {
                assert(s[k] == s.drop_last()[k]);
            }
        }
        if name_start(s) > 0 {
            assert(s[name_start(s) - 1] == s.drop_last()[name_start(s) - 1]);
        }
    }
}

/// A base name holds no separator.
pub proof fn lemma_basename_no_separator(s: Seq<char>)
    ensures
        forall|k: int| 0 <= k < basename(s).len() ==> !is_separator(#[trigger] basename(s)[k]),
{
    lemma_name_start_bounds(s);
    assert forall|k: int| 0 <= k < basename(s).len() implies !is_separator(#[trigger] basename(s)[k]) by {
        assert(basename(s)[k] == s[name_start(s) + k]);
    }
}

/// The name that a payload called `name` is stored under in an output archive.
pub fn entry_name(name: &str) -> (r: String)
    ensures
        r@ == basename(name@),
{
    let n = name.unicode_len();
    let mut start: usize = 0;
    let mut j: usize = 0;
    while j < n
        invariant
            n == name@.len(),
            j <= n,
            start as int == name_start(name@.take(j as int)),
        decreases n - j,
    {
        let c = name.get_char(j);
        proof {
            let t = name@.take(j + 1);
            assert(t.drop_last() =~= name@.take(j as int));
            assert(t.last() == c);
        }
        if c == '/' || c == '\\' {
            start = j + 1;
        }
        j = j + 1;
    }
    assert(name@.take(n as int) =~= name@);
    proof {
        lemma_name_start_bounds(name@);
    }
    name.substring_char(start, n).to_owned()
}

/// Spelling of the decimal digit `d`.
pub open spec fn digit_char(d: nat) -> char {
    if d == 0 { '0' } else if d == 1 { '1' } else if d == 2 { '2' } else if d == 3 { '3' } else if d == 4 { '4' }
    else if d == 5 { '5' } else if d == 6 { '6' } else if d == 7 { '7' } else if d == 8 { '8' } else { '9' }
}

/// Decimal spelling of `n`, without leading zeros.
pub open spec fn decimal(n: nat) -> Seq<char>
    decreases n,
{
    if n < 10 {
        seq![digit_char(n)]
    } else {
        decimal(n / 10) + seq![digit_char(n % 10)]
    }
}

fn digit_str(d: usize) -> (r: &'static str)
    requires
        d < 10,
    ensures
        r@ == seq![digit_char(d as nat)],
{
    proof {
        reveal_strlit("0");
        reveal_strlit("1");
        reveal_strlit("2");
        reveal_strlit("3");
        reveal_strlit("4");
        reveal_strlit("5");
        reveal_strlit("6");
        reveal_strlit("7");
        reveal_strlit("8");
        reveal_strlit("9");
    }
    let r = if d == 0 { "0" } else if d == 1 { "1" } else if d == 2 { "2" } else if d == 3 { "3" } else if d == 4 { "4" }
        else if d == 5 { "5" } else if d == 6 { "6" } else if d == 7 { "7" } else if d == 8 { "8" } else { "9" };
    assert(r@ =~= seq![digit_char(d as nat)]);
    r
}

fn push_decimal(s: &mut String, n: usize)
    ensures
        final(s)@ == old(s)@ + decimal(n as nat),
    decreases n,
{
    if n >= 10 {
        push_decimal(s, n / 10);
    }
    s.append(digit_str(n % 10));
    assert(final(s)@ =~= old(s)@ + decimal(n as nat));
}

/// Name of output archive number `number`, counted from one.
pub open spec fn part_name(number: nat) -> Seq<char> {
    seq!['p', 'a', 'r', 't', 'i', 't', 'i', 'o', 'n', '_'] + decimal(number) + seq!['.', 'z', 'i', 'p']
}

/// File name of output archive number `number` (counted from one): `partition_<number>.zip`.
pub fn part_file_name(number: usize) -> (r: String)
    ensures
        r@ == part_name(number as nat),
{
    proof {
        reveal_strlit("partition_");
        reveal_strlit(".zip");
    }
    let mut s = String::from_str("partition_");
    push_decimal(&mut s, number);
    s.append(".zip");
    assert(s@ =~= part_name(number as nat));
    s
}

} // verus!
