use crate::error::CrontabError;
use vstd::prelude::*;
use vstd::string::StrSliceExecFns;

verus! {

/// The components of a crontab schedule: for each field, the ascending,
/// duplicate-free list of allowed values.
#[derive(Clone, Debug, Default)]
pub struct ScheduleComponents {
    /// Minutes in the schedule, each in [0, 59].
    pub minutes: Vec<u32>,
    /// Hours in the schedule, each in [0, 23].
    pub hours: Vec<u32>,
    /// Days in the schedule, each in [1, 31].
    pub days: Vec<u32>,
    /// Months in the schedule, each in [1, 12].
    pub months: Vec<u32>,
    /// Weekdays in the schedule, each in [0, 6]; parsed and stored, but not
    /// consulted by the next-event search.
    pub weekdays: Vec<u32>,
    /// Seconds in the schedule: always empty, a reserved extension point.
    /// Every computation runs at one-minute resolution.
    pub seconds: Vec<u32>,
}

/// The whitespace characters on which an expression is split into fields.
pub open spec fn is_space_char(c: char) -> bool {
    c == ' ' || c == '\t' || c == '\n' || c == '\r' || c == '\u{b}' || c == '\u{c}'
}

/// An ASCII decimal digit.
pub open spec fn is_digit(c: char) -> bool {
    48 <= c as u32 <= 57
}

/// The numeric value of an ASCII decimal digit.
pub open spec fn digit_val(c: char) -> int {
    c as u32 - 48
}

/// `s` consists of ASCII decimal digits only.
pub open spec fn all_digits(s: Seq<char>) -> bool {
    forall|i: int| 0 <= i < s.len() ==> is_digit(#[trigger] s[i])
}

/// The base-10 value of a digit string (0 when empty).
pub open spec fn int_of_digits(s: Seq<char>) -> int
    decreases s.len(),
{
    if s.len() == 0 {
        0
    } else {
        int_of_digits(s.drop_last()) * 10 + digit_val(s.last())
    }
}

/// A token that parses as a base-10 unsigned 32-bit integer: nonempty, all
/// digits, and small enough.
pub open spec fn valid_number(s: Seq<char>) -> bool {
    s.len() > 0 && all_digits(s) && int_of_digits(s) <= u32::MAX
}

/// Splitting `s` at every comma, keeping empty pieces, as Rust's
/// `split(",")` does; the result always has at least one piece.
pub open spec fn split_commas(s: Seq<char>) -> Seq<Seq<char>>
    decreases s.len(),
{
    if s.len() == 0 {
        seq![Seq::<char>::empty()]
    } else if s[0] == ',' {
        seq![Seq::<char>::empty()] + split_commas(s.drop_first())
    } else {
        let rest = split_commas(s.drop_first());
        seq![seq![s[0]] + rest[0]] + rest.skip(1)
    }
}

/// Splitting `s` into its maximal whitespace-free runs, as Rust's
/// `split_whitespace` does.
pub open spec fn split_fields(s: Seq<char>) -> Seq<Seq<char>>
    decreases s.len(),
{
    if s.len() == 0 {
        Seq::empty()
    } else if is_space_char(s[0]) {
        split_fields(s.drop_first())
    } else if s.len() >= 2 && !is_space_char(s[1]) {
        let rest = split_fields(s.drop_first());
        seq![seq![s[0]] + rest[0]] + rest.skip(1)
    } else {
        seq![seq![s[0]]] + split_fields(s.drop_first())
    }
}

/// The wildcard field: a single `*`.
pub open spec fn is_wildcard(f: Seq<char>) -> bool {
    f.len() == 1 && f[0] == '*'
}

/// The value a list entry stands for.
pub open spec fn part_val(p: Seq<char>) -> int {
    int_of_digits(p)
}

/// Entry `i` of a comma list is acceptable: a valid integer, within
/// [min, max], and strictly above its predecessor.
pub open spec fn part_ok(parts: Seq<Seq<char>>, i: int, min: int, max: int) -> bool {
    &&& valid_number(parts[i])
    &&& min <= part_val(parts[i]) <= max
    &&& (i > 0 ==> part_val(parts[i - 1]) < part_val(parts[i]))
}

/// Every entry of the comma list is acceptable.
pub open spec fn valid_list(parts: Seq<Seq<char>>, min: int, max: int) -> bool {
    forall|i: int| 0 <= i < parts.len() ==> part_ok(parts, i, min, max)
}

/// A valid field: the wildcard, or a strictly ascending in-range comma list.
pub open spec fn valid_field(f: Seq<char>, min: int, max: int) -> bool {
    is_wildcard(f) || valid_list(split_commas(f), min, max)
}

/// All integers of [min, max], ascending.
pub open spec fn range_values(min: int, max: int) -> Seq<u32> {
    Seq::new((max + 1 - min) as nat, |i: int| (min + i) as u32)
}

/// The values a valid field stands for: the full range for the wildcard,
/// the listed values otherwise.
pub open spec fn field_values(f: Seq<char>, min: int, max: int) -> Seq<u32> {
    if is_wildcard(f) {
        range_values(min, max)
    } else {
        split_commas(f).map_values(|p: Seq<char>| part_val(p) as u32)
    }
}

/// The first unacceptable entry of the comma list is not a valid integer
/// (as opposed to merely out of range or out of order).
pub open spec fn int_error_first(parts: Seq<Seq<char>>, min: int, max: int) -> bool {
    exists|j: int|
        0 <= j < parts.len() && (forall|k: int| 0 <= k < j ==> part_ok(parts, k, min, max))
            && !valid_number(parts[j])
}

/// Lower bound of field `i` of an expression, in field order minute, hour,
/// day of month, month, day of week.
pub open spec fn field_lo(i: int) -> int {
    if i == 2 || i == 3 {
        1
    } else {
        0
    }
}

/// Upper bound of field `i` of an expression.
pub open spec fn field_hi(i: int) -> int {
    if i == 0 {
        59
    } else if i == 1 {
        23
    } else if i == 2 {
        31
    } else if i == 3 {
        12
    } else {
        6
    }
}

/// Every field before field `i` is valid for its range.
pub open spec fn fields_valid_upto(s: Seq<char>, i: int) -> bool {
    forall|j: int|
        0 <= j < i ==> valid_field(#[trigger] split_fields(s)[j], field_lo(j), field_hi(j))
}

/// A valid cron expression: it splits into exactly five fields, each valid
/// for its range.
pub open spec fn cron_valid(s: Seq<char>) -> bool {
    &&& split_fields(s).len() == 5
    &&& fields_valid_upto(s, 5)
}

/// Among five fields, the first invalid one fails on a token that is not a
/// valid integer (rather than on range or order).
pub open spec fn cron_int_error(s: Seq<char>) -> bool {
    exists|i: int|
        0 <= i < 5 && #[trigger] fields_valid_upto(s, i) && !is_wildcard(split_fields(s)[i])
            && int_error_first(split_commas(split_fields(s)[i]), field_lo(i), field_hi(i))
}

/// An ordered value set for one field: nonempty, strictly ascending,
/// every member within [lo, hi].
pub open spec fn set_wf(s: Seq<u32>, lo: int, hi: int) -> bool {
    &&& s.len() > 0
    &&& forall|i: int| 0 <= i < s.len() ==> lo <= #[trigger] s[i] <= hi
    &&& forall|i: int, j: int| #![trigger s[i], s[j]] 0 <= i < j < s.len() ==> s[i] < s[j]
}

/// A well-formed schedule, as the parser always produces it: each of the
/// five consulted fields is a nonempty, strictly ascending, in-range set.
pub open spec fn sched_wf(s: ScheduleComponents) -> bool {
    &&& set_wf(s.minutes@, 0, 59)
    &&& set_wf(s.hours@, 0, 23)
    &&& set_wf(s.days@, 1, 31)
    &&& set_wf(s.months@, 1, 12)
    &&& set_wf(s.weekdays@, 0, 6)
}

/// A digit string's value is never negative.
proof fn lemma_digits_nonneg(s: Seq<char>)
    requires
        all_digits(s),
    ensures
        int_of_digits(s) >= 0,
    decreases s.len(),
{
    if s.len() > 0 {
        assert(all_digits(s.drop_last())) by {
            assert(forall|i: int|
                0 <= i < s.drop_last().len() ==> s.drop_last()[i] == #[trigger] s[i]);
        }
        lemma_digits_nonneg(s.drop_last());
    }
}

/// Extending a digit string can only grow its value.
proof fn lemma_digits_prefix(s: Seq<char>, m: int)
    requires
        all_digits(s),
        0 <= m <= s.len(),
    ensures
        int_of_digits(s.take(m)) <= int_of_digits(s),
    decreases s.len() - m,
{
    if m < s.len() {
        assert(all_digits(s.take(m + 1))) by {
            assert(forall|i: int|
                0 <= i < s.take(m + 1).len() ==> s.take(m + 1)[i] == #[trigger] s[i]);
        }
        assert(s.take(m + 1).drop_last() =~= s.take(m));
        lemma_digits_nonneg(s.take(m));
        assert(int_of_digits(s.take(m)) <= int_of_digits(s.take(m + 1)));
        lemma_digits_prefix(s, m + 1);
    } else {
        assert(s.take(m) =~= s);
    }
}

/// How `split_commas` decomposes at the first comma: if nothing before
/// position `j` is a comma and `j` sits at a comma or at the end, the first
/// piece is exactly `s[..j]` and the rest are the pieces after the comma.
proof fn lemma_split_commas_cut(s: Seq<char>, j: int)
    requires
        0 <= j <= s.len(),
        forall|l: int| 0 <= l < j ==> s[l] != ',',
        j == s.len() || s[j] == ',',
    ensures
        j == s.len() ==> split_commas(s) =~~= seq![s],
        j < s.len() ==> split_commas(s) =~~= seq![s.take(j)] + split_commas(s.skip(j + 1)),
    decreases j,
{
    if j == 0 {
        if s.len() == 0 {
            assert(split_commas(s) =~~= seq![s]);
        } else {
            assert(s[0] == ',');
            assert(s.drop_first() =~= s.skip(1));
            assert(s.take(0) =~= Seq::<char>::empty());
            assert(split_commas(s) =~~= seq![s.take(0)] + split_commas(s.skip(1)));
        }
    } else {
        assert(s[0] != ',');
        let d = s.drop_first();
        assert(forall|l: int| 0 <= l < j - 1 ==> #[trigger] d[l] == s[l + 1]);
        lemma_split_commas_cut(d, j - 1);
        let rest = split_commas(d);
        if j == s.len() {
            assert(rest =~~= seq![d]);
            assert(seq![s[0]] + d =~= s);
            assert(split_commas(s) =~~= seq![s]);
        } else {
            assert(d[j - 1] == s[j]);
            assert(rest =~~= seq![d.take(j - 1)] + split_commas(d.skip(j)));
            assert(seq![s[0]] + d.take(j - 1) =~= s.take(j));
            assert(d.skip(j) =~= s.skip(j + 1));
            assert(rest[0] == d.take(j - 1));
            assert(rest.skip(1) =~~= split_commas(d.skip(j)));
            assert(split_commas(s) =~~= seq![s.take(j)] + split_commas(s.skip(j + 1)));
        }
    }
}

/// A comma split always has at least one piece.
proof fn lemma_split_commas_nonempty(s: Seq<char>)
    ensures
        split_commas(s).len() >= 1,
    decreases s.len(),
{
    if s.len() > 0 {
        lemma_split_commas_nonempty(s.drop_first());
    }
}

/// How `split_fields` decomposes at the first token: if `s` opens with a
/// whitespace-free run of length `j` that ends at whitespace or at the end,
/// the first field is exactly `s[..j]`.
proof fn lemma_split_fields_cut(s: Seq<char>, j: int)
    requires
        1 <= j <= s.len(),
        forall|l: int| 0 <= l < j ==> !is_space_char(#[trigger] s[l]),
        j == s.len() || is_space_char(s[j]),
    ensures
        split_fields(s) =~~= seq![s.take(j)] + split_fields(s.skip(j)),
    decreases j,
{
    let d = s.drop_first();
    assert(forall|l: int| 0 <= l < j - 1 ==> #[trigger] d[l] == s[l + 1]);
    if j == 1 {
        if s.len() >= 2 {
            assert(is_space_char(s[1]));
        }
        assert(s.take(1) =~= seq![s[0]]);
        assert(s.skip(1) =~= d);
        assert(split_fields(s) =~~= seq![s.take(1)] + split_fields(s.skip(1)));
    } else {
        assert(!is_space_char(s[1]));
        lemma_split_fields_cut(d, j - 1);
        let rest = split_fields(d);
        assert(rest =~~= seq![d.take(j - 1)] + split_fields(d.skip(j - 1)));
        assert(rest[0] == d.take(j - 1));
        assert(rest.skip(1) =~~= split_fields(d.skip(j - 1)));
        assert(seq![s[0]] + d.take(j - 1) =~= s.take(j));
        assert(d.skip(j - 1) =~= s.skip(j));
        assert(split_fields(s) =~~= seq![s.take(j)] + split_fields(s.skip(j)));
    }
}

/// If the first unacceptable entry of a comma list is not a valid integer,
/// the list as a whole fails with an integer error.
proof fn lemma_int_error_witness(parts: Seq<Seq<char>>, k: int, min: int, max: int)
    requires
        0 <= k < parts.len(),
        forall|i: int| 0 <= i < k ==> part_ok(parts, i, min, max),
        !valid_number(parts[k]),
    ensures
        int_error_first(parts, min, max),
        !valid_list(parts, min, max),
{
    assert(!part_ok(parts, k, min, max));
}

/// If the first unacceptable entry of a comma list is a valid integer (so it
/// is merely out of range or out of order), the list fails, but not with an
/// integer error.
proof fn lemma_not_int_error(parts: Seq<Seq<char>>, k: int, min: int, max: int)
    requires
        0 <= k < parts.len(),
        forall|i: int| 0 <= i < k ==> part_ok(parts, i, min, max),
        valid_number(parts[k]),
        !part_ok(parts, k, min, max),
    ensures
        !int_error_first(parts, min, max),
        !valid_list(parts, min, max),
{
    assert forall|j: int|
        0 <= j < parts.len() && (forall|i: int|
            0 <= i < j ==> part_ok(parts, i, min, max)) implies valid_number(
        parts[j],
    ) by {
        if j < k {
            assert(part_ok(parts, j, min, max));
        } else if j > k {
            assert(part_ok(parts, k, min, max));
        }
    }
}

/// Whether `c` is one of the whitespace characters the splitter recognises.
fn is_space(c: char) -> (r: bool)
    ensures
        r == is_space_char(c),
{
    c == ' ' || c == '\t' || c == '\n' || c == '\r' || c == '\u{b}' || c == '\u{c}'
}

/// Parse one schedule field against its legal range: either the wildcard
/// `*`, which expands to every value of [min, max] in ascending order, or a
/// comma-separated list of integers that must already be strictly ascending
/// and within range.
///
/// Succeeds exactly on valid fields and returns exactly the values the field
/// stands for; the error distinguishes a token that is not an integer
/// (`ErrParseInt`) from an out-of-range or out-of-order list
/// (`ErrCronFormat`).
pub fn parse_field(field: &str, min: u32, max: u32) -> (r: Result<Vec<u32>, CrontabError>)
    requires
        min <= max,
        max < u32::MAX,
    ensures
        r is Ok <==> valid_field(field@, min as int, max as int),
        r is Ok ==> r->Ok_0@ == field_values(field@, min as int, max as int),
        r is Ok ==> set_wf(r->Ok_0@, min as int, max as int),
        r is Err ==> (r->Err_0 is ErrParseInt <==> int_error_first(
            split_commas(field@),
            min as int,
            max as int,
        )),
{
    let n = field.unicode_len();
    if n == 1 && field.get_char(0) == '*' {
        let mut components: Vec<u32> = Vec::new();
        let mut i = min;
        while i <= max
            invariant
                min <= i <= max + 1,
                max < u32::MAX,
                components@.len() == i - min,
                forall|k: int|
                    0 <= k < components@.len() ==> #[trigger] components@[k] == min + k,
            decreases max + 1 - i,
        {
            components.push(i);
            i = i + 1;
        }
        assert(components@ =~= range_values(min as int, max as int));
        return Ok(components);
    }

    let ghost parts = split_commas(field@);
    let mut components: Vec<u32> = Vec::new();
    let mut pos: usize = 0;
    proof {
        assert(field@.skip(0) =~= field@);
        assert(parts.skip(0) =~~= parts);
    }
    loop
        invariant_except_break
            n == field@.len(),
            !is_wildcard(field@),
            min <= max,
            max < u32::MAX,
            pos <= n,
            parts == split_commas(field@),
            components@.len() <= parts.len(),
            split_commas(field@.skip(pos as int)) =~~= parts.skip(components@.len() as int),
            forall|i: int|
                0 <= i < components@.len() ==> part_ok(parts, i, min as int, max as int),
            forall|i: int|
                0 <= i < components@.len() ==> #[trigger] components@[i] == part_val(
                    parts[i],
                ) as u32,
            forall|i: int, j: int|
                #![trigger components@[i], components@[j]]
                0 <= i < j < components@.len() ==> components@[i] < components@[j],
        ensures
            valid_list(parts, min as int, max as int),
            components@ == parts.map_values(|p: Seq<char>| part_val(p) as u32),
            set_wf(components@, min as int, max as int),
        decreases n - pos,
    {
        let ghost k = components@.len() as int;
        // Find the end of the current comma-separated piece.
        let mut j = pos;
        #[verifier::loop_isolation(false)]
        while j < n && field.get_char(j) != ','
            invariant
                n == field@.len(),
                pos <= j <= n,
                forall|l: int| pos <= l < j ==> field@[l] != ',',
            decreases n - j,
        {
            j = j + 1;
        }
        let ghost part = field@.subrange(pos as int, j as int);
        proof {
            let tail = field@.skip(pos as int);
            assert(forall|l: int| 0 <= l < j - pos ==> #[trigger] tail[l] == field@[l + pos]);
            lemma_split_commas_cut(tail, j - pos);
            if j < n {
                assert(tail.take(j - pos) =~= part);
                assert(tail.skip(j - pos + 1) =~= field@.skip(j + 1));
                assert(split_commas(tail) =~~= seq![part] + split_commas(field@.skip(j + 1)));
            } else {
                assert(tail =~= part);
                assert(split_commas(tail) =~~= seq![part]);
            }
            assert(parts.skip(k).len() >= 1);
            assert(parts.len() >= k + 1);
            assert(parts[k] == parts.skip(k)[0]);
            assert(parts[k] == part);
        }

        // Parse the piece as a base-10 unsigned integer.
        if j == pos {
            // An empty piece is not a number.
            proof {
                assert(!valid_number(parts[k]));
                lemma_int_error_witness(parts, k, min as int, max as int);
            }
            return Err(CrontabError::ErrParseInt(field.substring_char(pos, j).to_owned()));
        }
        let mut val: u64 = 0;
        let mut l = pos;
        #[verifier::loop_isolation(false)]
        while l < j
            invariant
                n == field@.len(),
                pos <= l <= j <= n,
                part == field@.subrange(pos as int, j as int),
                forall|m: int| pos <= m < l ==> is_digit(#[trigger] field@[m]),
                val == int_of_digits(part.take(l - pos)),
                val <= u32::MAX,
            decreases j - l,
        {
            let c = field.get_char(l);
            let d = c as u32;
            if !(48 <= d && d <= 57) {
                proof {
                    assert(part[l - pos] == field@[l as int]);
                    assert(!valid_number(parts[k]));
                    lemma_int_error_witness(parts, k, min as int, max as int);
                }
                return Err(CrontabError::ErrParseInt(field.substring_char(pos, j).to_owned()));
            }
            proof {
                assert(part.take(l - pos + 1).drop_last() =~= part.take(l - pos));
                assert(part.take(l - pos + 1).last() == field@[l as int]);
            }
            val = val * 10 + (d as u64 - 48);
            if val > u32::MAX as u64 {
                proof {
                    if valid_number(parts[k]) {
                        assert(all_digits(part));
                        lemma_digits_prefix(part, l + 1 - pos);
                    }
                    assert(!valid_number(parts[k]));
                    lemma_int_error_witness(parts, k, min as int, max as int);
                }
                return Err(CrontabError::ErrParseInt(field.substring_char(pos, j).to_owned()));
            }
            l = l + 1;
        }
        proof {
            assert(part.take(j - pos) =~= part);
            assert(forall|m: int| 0 <= m < part.len() ==> is_digit(#[trigger] part[m]));
            assert(valid_number(parts[k]));
        }
        let current = val as u32;

        // The list must already be strictly ascending.
        if components.len() > 0 {
            let last = components[components.len() - 1];
            if last >= current {
                proof {
                    assert(part_ok(parts, k - 1, min as int, max as int));
                    assert(!part_ok(parts, k, min as int, max as int));
                    lemma_not_int_error(parts, k, min as int, max as int);
                }
                return Err(CrontabError::ErrCronFormat(field.to_owned()));
            }
        }
        // And each value must lie within the field's range.
        if current < min || current > max {
            proof {
                assert(!part_ok(parts, k, min as int, max as int));
                lemma_not_int_error(parts, k, min as int, max as int);
            }
            return Err(CrontabError::ErrCronFormat(field.to_owned()));
        }
        components.push(current);
        proof {
            if k > 0 {
                assert(part_ok(parts, k - 1, min as int, max as int));
            }
            assert(part_ok(parts, k, min as int, max as int));
        }

        if j == n {
            proof {
                assert(parts.skip(k) =~~= seq![part]);
                assert(parts.len() == k + 1);
                assert(components@ =~= parts.map_values(|p: Seq<char>| part_val(p) as u32));
                assert forall|i: int|
                    0 <= i < components@.len() implies min <= #[trigger] components@[i]
                    <= max by {
                    assert(part_ok(parts, i, min as int, max as int));
                };
            }
            break;
        }
        proof {
            assert(parts.skip(k) =~~= seq![part] + split_commas(field@.skip(j + 1)));
            assert(parts.skip(k + 1) =~~= parts.skip(k).skip(1));
            assert(split_commas(field@.skip(j + 1)) =~~= parts.skip(k + 1));
        }
        pos = j + 1;
    }
    Ok(components)
}

/// A list in which every entry is acceptable never fails on an integer.
proof fn lemma_valid_no_int_error(parts: Seq<Seq<char>>, min: int, max: int)
    requires
        valid_list(parts, min, max),
    ensures
        !int_error_first(parts, min, max),
{
    assert forall|j: int| 0 <= j < parts.len() implies valid_number(parts[j]) by {
        assert(part_ok(parts, j, min, max));
    };
}

/// When the first `i` fields are valid and field `i` is not, the whole
/// expression is invalid, and it fails on an integer exactly when field `i`
/// does.
proof fn lemma_cron_error_kind(s: Seq<char>, i: int)
    requires
        0 <= i < 5,
        split_fields(s).len() == 5,
        fields_valid_upto(s, i),
        !valid_field(split_fields(s)[i], field_lo(i), field_hi(i)),
    ensures
        !cron_valid(s),
        cron_int_error(s) <==> int_error_first(
            split_commas(split_fields(s)[i]),
            field_lo(i),
            field_hi(i),
        ),
{
    let f = split_fields(s);
    assert(!cron_valid(s));
    if int_error_first(split_commas(f[i]), field_lo(i), field_hi(i)) {
        assert(!is_wildcard(f[i]));
        assert(cron_int_error(s));
    }
    if cron_int_error(s) {
        let i2 = choose|i2: int|
            0 <= i2 < 5 && #[trigger] fields_valid_upto(s, i2) && !is_wildcard(f[i2])
                && int_error_first(split_commas(f[i2]), field_lo(i2), field_hi(i2));
        if i2 < i {
            assert(valid_field(f[i2], field_lo(i2), field_hi(i2)));
            assert(valid_list(split_commas(f[i2]), field_lo(i2), field_hi(i2)));
            lemma_valid_no_int_error(split_commas(f[i2]), field_lo(i2), field_hi(i2));
            assert(false);
        } else if i2 > i {
            assert(valid_field(f[i], field_lo(i), field_hi(i)));
            assert(false);
        }
    }
}

/// Split `s` into its maximal whitespace-free runs, as the grammar's
/// `split_fields` describes them.
fn split_whitespace_fields<'a>(s: &'a str) -> (fields: Vec<&'a str>)
    ensures
        fields@.map_values(|f: &str| f@) == split_fields(s@),
{
    let n = s.unicode_len();
    let mut fields: Vec<&str> = Vec::new();
    let mut i: usize = 0;
    proof {
        assert(s@.skip(0) =~= s@);
        assert(fields@.map_values(|f: &str| f@) =~~= Seq::<Seq<char>>::empty());
    }
    while i < n
        invariant
            n == s@.len(),
            i <= n,
            fields@.map_values(|f: &str| f@) + split_fields(s@.skip(i as int)) =~~= split_fields(
                s@,
            ),
        decreases n - i,
    {
        let c = s.get_char(i);
        if is_space(c) {
            proof {
                assert(s@.skip(i as int).drop_first() =~= s@.skip(i + 1));
            }
            i = i + 1;
        } else {
            let start = i;
            let mut j = i;
            #[verifier::loop_isolation(false)]
            while j < n && !is_space(s.get_char(j))
                invariant
                    start <= j <= n,
                    forall|l: int| start <= l < j ==> !is_space_char(#[trigger] s@[l]),
                decreases n - j,
            {
                j = j + 1;
            }
            let tok = s.substring_char(start, j);
            let ghost prev = fields@.map_values(|f: &str| f@);
            proof {
                let tail = s@.skip(start as int);
                assert(forall|l: int| 0 <= l < j - start ==> #[trigger] tail[l] == s@[l + start]);
                lemma_split_fields_cut(tail, j - start);
                assert(tail.take(j - start) =~= tok@);
                assert(tail.skip(j - start) =~= s@.skip(j as int));
                assert(split_fields(s@.skip(start as int)) =~~= seq![tok@] + split_fields(
                    s@.skip(j as int),
                ));
            }
            fields.push(tok);
            proof {
                assert(fields@.map_values(|f: &str| f@) =~~= prev + seq![tok@]);
                assert(fields@.map_values(|f: &str| f@) + split_fields(s@.skip(j as int)) =~~= prev
                    + split_fields(s@.skip(start as int)));
            }
            i = j;
        }
    }
    proof {
        assert(s@.skip(n as int) =~= Seq::<char>::empty());
        assert(fields@.map_values(|f: &str| f@) =~~= split_fields(s@));
    }
    fields
}

/// Parse a cron expression into its schedule components.
///
/// The expression must split on whitespace into exactly five fields —
/// minute, hour, day of month, month, day of week — each either `*` or a
/// strictly ascending, duplicate-free comma list of integers within the
/// field's range. Parsing succeeds exactly on such expressions and yields
/// exactly the listed values (with `*` expanded to the field's whole range);
/// a wrong field count or an out-of-range or out-of-order list is an
/// `ErrCronFormat`, a token that is not an integer an `ErrParseInt`.
pub fn parse_cron(schedule: &str) -> (r: Result<ScheduleComponents, CrontabError>)
    ensures
        r is Ok <==> cron_valid(schedule@),
        r is Ok ==> r->Ok_0.minutes@ == field_values(split_fields(schedule@)[0], 0, 59),
        r is Ok ==> r->Ok_0.hours@ == field_values(split_fields(schedule@)[1], 0, 23),
        r is Ok ==> r->Ok_0.days@ == field_values(split_fields(schedule@)[2], 1, 31),
        r is Ok ==> r->Ok_0.months@ == field_values(split_fields(schedule@)[3], 1, 12),
        r is Ok ==> r->Ok_0.weekdays@ == field_values(split_fields(schedule@)[4], 0, 6),
        r is Ok ==> r->Ok_0.seconds@ == Seq::<u32>::empty(),
        r is Ok ==> sched_wf(r->Ok_0),
        r is Err && split_fields(schedule@).len() != 5 ==> r->Err_0 is ErrCronFormat,
        r is Err && split_fields(schedule@).len() == 5 ==> (r->Err_0 is ErrParseInt
            <==> cron_int_error(schedule@)),
{
    let fields = split_whitespace_fields(schedule);
    let ghost f = split_fields(schedule@);

    if fields.len() != 5 {
        return Err(CrontabError::ErrCronFormat(schedule.to_owned()));
    }
    proof {
        assert(fields@[0]@ == f[0]);
        assert(fields@[1]@ == f[1]);
        assert(fields@[2]@ == f[2]);
        assert(fields@[3]@ == f[3]);
        assert(fields@[4]@ == f[4]);
    }

    let minutes = match parse_field(fields[0], 0, 59) {
        Ok(v) => v,
        Err(e) => {
            proof {
                lemma_cron_error_kind(schedule@, 0);
            }
            return Err(e);
        },
    };
    let hours = match parse_field(fields[1], 0, 23) {
        Ok(v) => v,
        Err(e) => {
            proof {
                assert(fields_valid_upto(schedule@, 1));
                lemma_cron_error_kind(schedule@, 1);
            }
            return Err(e);
        },
    };
    let days = match parse_field(fields[2], 1, 31) {
        Ok(v) => v,
        Err(e) => {
            proof {
                assert(fields_valid_upto(schedule@, 2));
                lemma_cron_error_kind(schedule@, 2);
            }
            return Err(e);
        },
    };
    let months = match parse_field(fields[3], 1, 12) {
        Ok(v) => v,
        Err(e) => {
            proof {
                assert(fields_valid_upto(schedule@, 3));
                lemma_cron_error_kind(schedule@, 3);
            }
            return Err(e);
        },
    };
    let weekdays = match parse_field(fields[4], 0, 6) {
        Ok(v) => v,
        Err(e) => {
            proof {
                assert(fields_valid_upto(schedule@, 4));
                lemma_cron_error_kind(schedule@, 4);
            }
            return Err(e);
        },
    };
    proof {
        assert(fields_valid_upto(schedule@, 5));
    }

    Ok(
        ScheduleComponents {
            minutes: minutes,
            hours: hours,
            days: days,
            months: months,
            weekdays: weekdays,
            seconds: Vec::new(),
        },
    )
}

} // verus!
