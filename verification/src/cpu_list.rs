//! CPU lists as the kernel writes them (`"0-3,8,10-11"`), as in a cache's
//! `shared_cpu_list`.

use vstd::prelude::*;
use crate::text::{
    all_digits, chars_of, decimal_value, find_char, is_digit, lemma_find_from,
    lemma_parse_u32_digits, lemma_split_concat, lemma_split_without_sep, lemma_without_absent_char,
    lemma_without_char_concat, parse_u32, parse_u32_chars, remove_char, split, split_chars, texts,
    without_char,
};

verus! {

/// The ids `a`, `a + 1`, ..., `b`; none when `a > b`.
pub open spec fn id_range(a: u32, b: u32) -> Seq<u32> {
    if a <= b {
        Seq::new((b - a + 1) as nat, |i: int| (a + i) as u32)
    } else {
        seq![]
    }
}

/// The ids that one comma-separated part names: `"a-b"` names the range from
/// `a` to `b`, a number names itself, anything else names nothing.
pub open spec fn part_ids(part: Seq<char>) -> Seq<u32> {
    if part.contains('-') {
        let ends = split(part, '-');
        if ends.len() == 2 {
            match (parse_u32(ends[0]), parse_u32(ends[1])) {
                (Some(a), Some(b)) => id_range(a, b),
                _ => seq![],
            }
        } else {
            seq![]
        }
    } else {
        match parse_u32(part) {
            Some(id) => seq![id],
            None => seq![],
        }
    }
}

/// The ids that the parts name, part after part.
pub open spec fn ids_of_parts(parts: Seq<Seq<char>>) -> Seq<u32>
    decreases parts.len(),
{
    if parts.len() == 0 {
        seq![]
    } else {
        part_ids(parts[0]) + ids_of_parts(parts.drop_first())
    }
}

/// The ids that a CPU list names: its spaces removed, it is cut at each
/// comma, and each part read by `part_ids`.
pub open spec fn cpu_list_ids(list: Seq<char>) -> Seq<u32> {
    ids_of_parts(split(without_char(list, ' '), ','))
}

/// Appends the ids from `a` to `b`.
fn push_range(cpus: &mut Vec<u32>, a: u32, b: u32)
    ensures
        final(cpus)@ == old(cpus)@ + id_range(a, b),
{
    if a > b {
        assert(old(cpus)@ + id_range(a, b) =~= old(cpus)@);
        return;
    }
    let ghost base = old(cpus)@;
    let mut x = a;
    loop
        invariant
            a <= x <= b,
            base == old(cpus)@,
            cpus@ == base + id_range(a, b).take(x - a),
        decreases b - x,
    {
        cpus.push(x);
        assert(cpus@ =~= base + id_range(a, b).take(x - a + 1));
        if x == b {
            assert(id_range(a, b).take(x - a + 1) =~= id_range(a, b));
            return;
        }
        x = x + 1;
    }
}

/// The ids that one part names.
fn ids_of_part(part: &Vec<char>, cpus: &mut Vec<u32>)
    ensures
        final(cpus)@ == old(cpus)@ + part_ids(part@),
{
    let dash = find_char(part, 0, '-');
    proof {
        lemma_find_from(part@, 0, '-');
    }
    if dash < part.len() {
        assert(part@.contains('-'));
        let ends = split_chars(part, '-');
        if ends.len() == 2 {
            assert(texts(ends@)[0] == ends@[0]@);
            assert(texts(ends@)[1] == ends@[1]@);
            match (parse_u32_chars(&ends[0]), parse_u32_chars(&ends[1])) {
                (Some(a), Some(b)) => {
                    push_range(cpus, a, b);
                },
                _ => {
                    assert(old(cpus)@ + part_ids(part@) =~= old(cpus)@);
                },
            }
        } else {
            assert(old(cpus)@ + part_ids(part@) =~= old(cpus)@);
        }
    } else {
        assert(!part@.contains('-'));
        match parse_u32_chars(part) {
            Some(id) => {
                cpus.push(id);
                assert(cpus@ =~= old(cpus)@ + seq![id]);
            },
            None => {
                assert(old(cpus)@ + part_ids(part@) =~= old(cpus)@);
            },
        }
    }
}

/// The logical CPU ids that a CPU list such as `"0-3,8,10-11"` names, in the
/// order in which the list names them.
pub fn parse_cpu_list(list: &str) -> (cpus: Vec<u32>)
    ensures
        cpus@ == cpu_list_ids(list@),
{
    let chars = chars_of(list);
    let compact = remove_char(&chars, ' ');
    let parts = split_chars(&compact, ',');
    let ghost all = texts(parts@);
    let mut cpus: Vec<u32> = Vec::new();
    let mut k: usize = 0;
    assert(all.skip(0) =~= all);
    while k < parts.len()
        invariant
            k <= parts.len(),
            all == texts(parts@),
            all == split(without_char(list@, ' '), ','),
            ids_of_parts(all) == cpus@ + ids_of_parts(all.skip(k as int)),
        decreases parts.len() - k,
    {
        let ghost rest = all.skip(k as int);
        assert(rest[0] == parts@[k as int]@);
        assert(rest.drop_first() =~= all.skip(k + 1));
        let ghost before = cpus@;
        ids_of_part(&parts[k], &mut cpus);
        assert(before + ids_of_parts(rest) =~= cpus@ + ids_of_parts(all.skip(k + 1)));
        k = k + 1;
    }
    assert(all.skip(k as int) =~= Seq::<Seq<char>>::empty());
    assert(cpus@ + ids_of_parts(all.skip(k as int)) =~= cpus@);
    cpus
}

proof fn lemma_ids_of_parts_concat(a: Seq<Seq<char>>, b: Seq<Seq<char>>)
    ensures
        ids_of_parts(a + b) == ids_of_parts(a) + ids_of_parts(b),
    decreases a.len(),
{
    if a.len() == 0 {
        assert(a + b =~= b);
        assert(ids_of_parts(a) + ids_of_parts(b) =~= ids_of_parts(b));
    } else {
        assert((a + b)[0] == a[0]);
        assert((a + b).drop_first() =~= a.drop_first() + b);
        lemma_ids_of_parts_concat(a.drop_first(), b);
        assert(part_ids(a[0]) + (ids_of_parts(a.drop_first()) + ids_of_parts(b)) =~= (part_ids(
            a[0],
        ) + ids_of_parts(a.drop_first())) + ids_of_parts(b));
    }
}

/// Two CPU lists joined by a comma name the ids of the first, then those of
/// the second.
pub proof fn law_joined_lists(x: Seq<char>, y: Seq<char>)
    ensures
        cpu_list_ids(x + seq![','] + y) == cpu_list_ids(x) + cpu_list_ids(y),
{
    lemma_without_char_concat(x + seq![','], y, ' ');
    lemma_without_char_concat(x, seq![','], ' ');
    reveal_with_fuel(without_char, 2);
    assert(seq![','].drop_last() =~= Seq::<char>::empty());
    assert(without_char(seq![','], ' ') =~= seq![',']);
    let cx = without_char(x, ' ');
    let cy = without_char(y, ' ');
    assert(without_char(x + seq![','] + y, ' ') == cx + seq![','] + cy);
    lemma_split_concat(cx, ',', cy);
    lemma_ids_of_parts_concat(split(cx, ','), split(cy, ','));
}

/// The text of a decimal number `d` holds neither spaces, commas nor dashes.
proof fn lemma_digits_hold_no_marks(d: Seq<char>)
    requires
        all_digits(d),
    ensures
        !d.contains(' '),
        !d.contains(','),
        !d.contains('-'),
{
    if d.contains(' ') || d.contains(',') || d.contains('-') {
        let k = choose|k: int| 0 <= k < d.len() && (d[k] == ' ' || d[k] == ',' || d[k] == '-');
        assert(is_digit(d[k]));
    }
}

/// A CPU list that is one decimal number names just that id.
pub proof fn law_single_id(d: Seq<char>)
    requires
        d.len() > 0,
        all_digits(d),
        decimal_value(d) <= u32::MAX,
    ensures
        cpu_list_ids(d) == seq![decimal_value(d) as u32],
{
    lemma_digits_hold_no_marks(d);
    lemma_without_absent_char(d, ' ');
    lemma_split_without_sep(d, ',');
    lemma_parse_u32_digits(d);
    let v = parse_u32(d).unwrap();
    assert(split(without_char(d, ' '), ',') == seq![d]);
    assert(seq![d][0] == d);
    assert(seq![d].drop_first() =~= Seq::<Seq<char>>::empty());
    assert(part_ids(d) == seq![v]);
    assert(ids_of_parts(seq![d]) == part_ids(d) + ids_of_parts(Seq::<Seq<char>>::empty()));
    assert(seq![v] + Seq::<u32>::empty() =~= seq![v]);
}

/// A CPU list that is one range `a-b` of decimal numbers names the ids from
/// `a` to `b`, both included, in increasing order; none when `a > b`.
pub proof fn law_range_names_its_ids(da: Seq<char>, db: Seq<char>)
    requires
        da.len() > 0,
        db.len() > 0,
        all_digits(da),
        all_digits(db),
        decimal_value(da) <= u32::MAX,
        decimal_value(db) <= u32::MAX,
    ensures
        cpu_list_ids(da + seq!['-'] + db).len() == (if decimal_value(da) <= decimal_value(db) {
            decimal_value(db) - decimal_value(da) + 1
        } else {
            0
        }),
        forall|i: int|
            0 <= i < cpu_list_ids(da + seq!['-'] + db).len() ==> #[trigger] cpu_list_ids(
                da + seq!['-'] + db,
            )[i] == decimal_value(da) + i,
{
    let s = da + seq!['-'] + db;
    lemma_digits_hold_no_marks(da);
    lemma_digits_hold_no_marks(db);
    assert(s[da.len() as int] == '-');
    assert(!s.contains(' ') && !s.contains(',')) by {
        if s.contains(' ') || s.contains(',') {
            let k = choose|k: int| 0 <= k < s.len() && (s[k] == ' ' || s[k] == ',');
            if k < da.len() {
                assert(s[k] == da[k]);
                assert(da.contains(da[k]));
            } else if k > da.len() {
                assert(s[k] == db[k - da.len() - 1]);
                assert(db.contains(db[k - da.len() - 1]));
            }
        }
    }
    lemma_without_absent_char(s, ' ');
    lemma_split_without_sep(s, ',');
    assert(seq![s].drop_first() =~= Seq::<Seq<char>>::empty());
    assert(ids_of_parts(seq![s]) == part_ids(s) + ids_of_parts(Seq::<Seq<char>>::empty()));
    assert(part_ids(s) + Seq::<u32>::empty() =~= part_ids(s));
    lemma_split_concat(da, '-', db);
    lemma_split_without_sep(da, '-');
    lemma_split_without_sep(db, '-');
    assert(seq![da] + seq![db] =~= seq![da, db]);
    lemma_parse_u32_digits(da);
    lemma_parse_u32_digits(db);
    let a = parse_u32(da).unwrap();
    let b = parse_u32(db).unwrap();
    assert(split(without_char(s, ' '), ',') == seq![s]);
    assert(seq![s][0] == s);
    assert(s.contains('-'));
    assert(split(s, '-') == seq![da, db]);
    assert(part_ids(s) == id_range(a, b));
    assert(cpu_list_ids(s) == id_range(a, b));
    assert(a as int == decimal_value(da) && b as int == decimal_value(db));
}

} // verus!
