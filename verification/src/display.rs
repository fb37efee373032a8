//! The texts that the monitor's screen shows.

use vstd::prelude::*;
use vstd::string::*;
use vstd::utf8::{encode_scalar, encode_utf8};
use crate::control::SortBy;
use crate::text::{lemma_first_line_is_a_line, all_digits, chars_of, digits_value, first_line, first_line_end, is_digit, parse_u32};

verus! {

/// Calls `String::push`. Claimed, as its documentation says: the character is
/// appended to the end of the string.
#[verifier::external_body]
fn push_char(s: &mut String, c: char)
    ensures
        final(s)@ == old(s)@.push(c),
{
    s.push(c);
}

/// The decimal digits that `Display` writes for `n`.
pub open spec fn decimal_text(n: nat) -> Seq<char>
    decreases n,
{
    if n < 10 {
        seq![(('0' as int) + n) as char]
    } else {
        decimal_text(n / 10).push((('0' as int) + n % 10) as char)
    }
}

/// Appends the decimal digits of `n`.
pub fn push_decimal(s: &mut String, n: u64)
    ensures
        final(s)@ == old(s)@ + decimal_text(n as nat),
    decreases n,
{
    if n >= 10 {
        push_decimal(s, n / 10);
    }
    let d = (n % 10) as u8;
    let c = (48u8 + d) as char;
    push_char(s, c);
}

/// The number of bytes that `c` takes in UTF-8.
pub open spec fn char_width(c: char) -> nat {
    let n = c as u32;
    if n < 0x80 {
        1
    } else if n < 0x800 {
        2
    } else if n < 0x10000 {
        3
    } else {
        4
    }
}

/// The number of bytes that `s` takes in UTF-8, as `str::len` counts them.
pub open spec fn utf8_len(s: Seq<char>) -> nat
    decreases s.len(),
{
    if s.len() == 0 {
        0
    } else {
        utf8_len(s.drop_last()) + char_width(s.last())
    }
}

/// How many characters of `s` fit in `budget` bytes of UTF-8, taken from the front.
pub open spec fn utf8_prefix_len(s: Seq<char>, budget: nat) -> nat
    decreases s.len(),
{
    if utf8_len(s) <= budget {
        s.len()
    } else {
        utf8_prefix_len(s.drop_last(), budget)
    }
}

/// The first line of an error message as a panel shows it: whole when its
/// UTF-8 takes at most `limit` bytes, else its first `keep` bytes followed by `...`.
pub open spec fn error_summary_text(err: Seq<char>, limit: nat, keep: nat) -> Seq<char> {
    let line = first_line(err);
    if utf8_len(line) > limit {
        line.take(utf8_prefix_len(line, keep) as int) + "..."@
    } else {
        line
    }
}

/// The summary of `err` can be cut: where its first line takes more than
/// `limit` bytes, its first `keep` bytes end at a character's end (a cut
/// elsewhere, as `&line[..keep]` makes it, panics).
pub open spec fn cuts_cleanly(err: Seq<char>, limit: nat, keep: nat) -> bool {
    let line = first_line(err);
    utf8_len(line) > limit ==> utf8_len(line.take(utf8_prefix_len(line, keep) as int)) == keep
}

proof fn lemma_encode_utf8_push(s: Seq<char>, c: char)
    ensures
        encode_utf8(s.push(c)) == encode_utf8(s) + encode_scalar(c as u32),
    decreases s.len(),
{
    if s.len() == 0 {
        assert(s.push(c).drop_first() =~= s);
        assert(encode_utf8(s.push(c).drop_first()) == Seq::<u8>::empty());
        assert(encode_utf8(s.push(c)) =~= encode_scalar(c as u32));
    } else {
        assert(s.push(c).drop_first() =~= s.drop_first().push(c));
        lemma_encode_utf8_push(s.drop_first(), c);
        assert(encode_utf8(s.push(c)) =~= encode_utf8(s) + encode_scalar(c as u32));
    }
}

/// `utf8_len` counts the bytes of the UTF-8 encoding.
pub proof fn lemma_utf8_len_is_encoded_length(s: Seq<char>)
    ensures
        utf8_len(s) == encode_utf8(s).len(),
    decreases s.len(),
{
    if s.len() > 0 {
        let c = s.last();
        vstd::utf8::char_is_scalar(c);
        lemma_utf8_len_is_encoded_length(s.drop_last());
        assert(s.drop_last().push(c) =~= s);
        lemma_encode_utf8_push(s.drop_last(), c);
    }
}

proof fn lemma_utf8_len_prefix(s: Seq<char>, j: int)
    requires
        0 <= j <= s.len(),
    ensures
        utf8_len(s.take(j)) <= utf8_len(s),
        j < s.len() ==> utf8_len(s.take(j + 1)) == utf8_len(s.take(j)) + char_width(s[j]),
    decreases s.len(),
{
    if j < s.len() {
        assert(s.take(j + 1).drop_last() =~= s.take(j));
        lemma_utf8_len_prefix(s.drop_last(), j);
        assert(s.drop_last().take(j) =~= s.take(j));
    } else {
        assert(s.take(j) =~= s);
    }
}

proof fn lemma_utf8_prefix_len_at(s: Seq<char>, budget: nat, i: int)
    requires
        0 <= i <= s.len(),
        utf8_len(s.take(i)) <= budget,
        i == s.len() || utf8_len(s.take(i + 1)) > budget,
    ensures
        utf8_prefix_len(s, budget) == i,
    decreases s.len(),
{
    if i == s.len() {
        assert(s.take(i) =~= s);
    } else {
        let t = s.drop_last();
        lemma_utf8_len_prefix(s, i + 1);
        assert(t.take(i) =~= s.take(i));
        if i + 1 < s.len() {
            assert(t.take(i + 1) =~= s.take(i + 1));
        } else {
            assert(t =~= s.take(i));
            assert(s.take(i + 1) =~= s);
        }
        lemma_utf8_prefix_len_at(t, budget, i);
    }
}

/// The number of bytes that `c` takes in UTF-8.
fn char_utf8_width(c: char) -> (r: u128)
    ensures
        r == char_width(c),
{
    let n = c as u32;
    if n < 0x80 {
        1
    } else if n < 0x800 {
        2
    } else if n < 0x10000 {
        3
    } else {
        4
    }
}

/// Whether `v[..end]` takes more than `limit` bytes in UTF-8.
fn utf8_len_exceeds(v: &Vec<char>, end: usize, limit: usize) -> (r: bool)
    requires
        end <= v.len(),
    ensures
        r == (utf8_len(v@.take(end as int)) > limit),
{
    let ghost s = v@.take(end as int);
    let mut acc: u128 = 0;
    let mut i: usize = 0;
    while i < end && acc <= limit as u128
        invariant
            i <= end <= v.len(),
            s == v@.take(end as int),
            acc == utf8_len(s.take(i as int)),
        decreases end - i,
    {
        proof {
            lemma_utf8_len_prefix(s, i as int);
        }
        acc = acc + char_utf8_width(v[i]);
        i = i + 1;
    }
    proof {
        lemma_utf8_len_prefix(s, i as int);
        if i == end {
            assert(s.take(i as int) =~= s);
        }
    }
    acc > limit as u128
}

/// How many characters of `v[..end]` fit in `budget` bytes of UTF-8, and how
/// many bytes they take.
fn utf8_prefix(v: &Vec<char>, end: usize, budget: usize) -> (r: (usize, u128))
    requires
        end <= v.len(),
    ensures
        r.0 == utf8_prefix_len(v@.take(end as int), budget as nat),
        r.1 == utf8_len(v@.take(end as int).take(r.0 as int)),
        r.0 <= end,
{
    let ghost s = v@.take(end as int);
    let mut acc: u128 = 0;
    let mut i: usize = 0;
    while i < end && acc + char_utf8_width(v[i]) <= budget as u128
        invariant
            i <= end <= v.len(),
            s == v@.take(end as int),
            acc == utf8_len(s.take(i as int)),
            acc <= budget,
        decreases end - i,
    {
        proof {
            lemma_utf8_len_prefix(s, i as int);
        }
        acc = acc + char_utf8_width(v[i]);
        i = i + 1;
    }
    proof {
        if i < end {
            lemma_utf8_len_prefix(s, i as int);
        }
        lemma_utf8_prefix_len_at(s, budget as nat, i as int);
    }
    (i, acc)
}

/// Decides `cuts_cleanly`, for callers to check before asking for a summary.
pub fn summary_cuts_cleanly(err: &str, limit: usize, keep: usize) -> (r: bool)
    ensures
        r == cuts_cleanly(err@, limit as nat, keep as nat),
{
    let v = chars_of(err);
    let end = first_line_end(&v);
    if utf8_len_exceeds(&v, end, limit) {
        let (_, bytes) = utf8_prefix(&v, end, keep);
        bytes == keep as u128
    } else {
        true
    }
}

/// The first line of `err`, cut to its first `keep` bytes and marked with
/// `...` when it takes more than `limit` bytes.
pub fn error_summary(err: &str, limit: usize, keep: usize) -> (r: String)
    requires
        cuts_cleanly(err@, limit as nat, keep as nat),
    ensures
        r@ == error_summary_text(err@, limit as nat, keep as nat),
{
    let v = chars_of(err);
    let end = first_line_end(&v);
    if utf8_len_exceeds(&v, end, limit) {
        let (count, _) = utf8_prefix(&v, end, keep);
        let mut r = err.substring_char(0, count).to_owned();
        assert(r@ =~= first_line(err@).take(count as int));
        r.append("...");
        r
    } else {
        err.substring_char(0, end).to_owned()
    }
}

/// The title of the GPU panel: the reading with its temperature when that is
/// above 0, else the error's summary, else that there is no GPU.
pub open spec fn gpu_title(reading: Option<(u32, u32, String)>, error: Option<String>) -> Seq<char> {
    match reading {
        Some((_, temperature, name)) => if temperature > 0 {
            "GPU - "@ + name@ + " - "@ + decimal_text(temperature as nat) + "°C"@
        } else {
            "GPU - "@ + name@
        },
        None => match error {
            Some(e) => "GPU Error: "@ + error_summary_text(e@, 40, 37),
            None => "GPU: N/A"@,
        },
    }
}

/// How full the GPU panel's gauge is, in percent: the utilization up to 100,
/// or 0 without a reading.
pub open spec fn gpu_percent(reading: Option<(u32, u32, String)>) -> u32 {
    match reading {
        Some((utilization, _, _)) => if utilization > 100 {
            100
        } else {
            utilization
        },
        None => 0,
    }
}

/// The GPU panel: its title and its gauge in percent.
pub fn gpu_panel(reading: &Option<(u32, u32, String)>, last_error: &Option<String>) -> (r: (
    String,
    u32,
))
    requires
        reading is None && last_error is Some ==> cuts_cleanly(last_error->0@, 40, 37),
    ensures
        r.0@ == gpu_title(*reading, *last_error),
        r.1 == gpu_percent(*reading),
{
    match reading {
        Some((utilization, temperature, name)) => {
            let mut title = "GPU - ".to_owned();
            title.append(name.as_str());
            if *temperature > 0 {
                title.append(" - ");
                push_decimal(&mut title, *temperature as u64);
                title.append("°C");
            }
            let percent = if *utilization > 100 {
                100
            } else {
                *utilization
            };
            (title, percent)
        },
        None => match last_error {
            Some(e) => {
                let mut title = "GPU Error: ".to_owned();
                let summary = error_summary(e.as_str(), 40, 37);
                title.append(summary.as_str());
                (title, 0)
            },
            None => ("GPU: N/A".to_owned(), 0),
        },
    }
}

/// The key help line, with the summary of the last GPU error when there is one.
pub open spec fn help_line(error: Option<String>) -> Seq<char> {
    let keys = "q:quit  p:pause  s:cycle sort  ↑/↓:select  k:kill (confirm)"@;
    match error {
        Some(e) => keys + "    GPU Err: "@ + error_summary_text(e@, 60, 57),
        None => keys,
    }
}

/// The key help line.
pub fn help_text(last_error: &Option<String>) -> (r: String)
    requires
        last_error is Some ==> cuts_cleanly(last_error->0@, 60, 57),
    ensures
        r@ == help_line(*last_error),
{
    let mut text = "q:quit  p:pause  s:cycle sort  ↑/↓:select  k:kill (confirm)".to_owned();
    match last_error {
        Some(e) => {
            text.append("    GPU Err: ");
            let summary = error_summary(e.as_str(), 60, 57);
            text.append(summary.as_str());
        },
        None => {},
    }
    text
}

/// The process table's title, naming the metric that orders it.
pub fn table_title(sort_by: SortBy) -> (r: String)
    ensures
        r@ == "Processes (sort: "@ + sort_by.title() + ")"@,
{
    let mut text = "Processes (sort: ".to_owned();
    text.append(sort_by.label());
    text.append(")");
    text
}

/// A process id as the table shows it.
pub fn pid_text(pid: u32) -> (r: String)
    ensures
        r@ == decimal_text(pid as nat),
{
    let mut text = String::new();
    push_decimal(&mut text, pid as u64);
    text
}

/// A memory figure as the table shows it, with the unit `KB`.
pub fn memory_text(memory: u64) -> (r: String)
    ensures
        r@ == decimal_text(memory as nat) + " KB"@,
{
    let mut text = String::new();
    push_decimal(&mut text, memory);
    text.append(" KB");
    text
}

/// The question asked before a process is killed.
pub fn confirm_text(pid: u32) -> (r: String)
    ensures
        r@ == "Confirm kill PID "@ + decimal_text(pid as nat) + "? (y/n)"@,
{
    let mut text = "Confirm kill PID ".to_owned();
    push_decimal(&mut text, pid as u64);
    text.append("? (y/n)");
    text
}

/// Where the confirmation box stands on a screen `width` by `height` cells:
/// `(x, y, width, height)`, a quarter in, a third down, half as wide, 3 high.
pub fn confirm_area(width: u16, height: u16) -> (r: (u16, u16, u16, u16))
    ensures
        r == (width / 4, height / 3, width / 2, 3u16),
{
    (width / 4, height / 3, width / 2, 3)
}

/// The decimal text of a number is a nonempty run of digits that writes it.
pub proof fn lemma_decimal_text_digits(n: nat)
    ensures
        decimal_text(n).len() > 0,
        all_digits(decimal_text(n)),
        digits_value(decimal_text(n)) == n,
    decreases n,
{
    let d = decimal_text(n);
    if n < 10 {
        assert(d.drop_last() =~= Seq::<char>::empty());
        assert(d.last() as int == 48 + n);
        assert(digits_value(d.drop_last()) == 0);
        assert(is_digit(d[0]));
    } else {
        lemma_decimal_text_digits(n / 10);
        let h = decimal_text(n / 10);
        assert(d.drop_last() =~= h);
        assert(d.last() as int == 48 + n % 10);
        assert(n == (n / 10) * 10 + n % 10);
        assert(digits_value(d) == digits_value(h) * 10 + (n % 10));
        assert forall|i: int| 0 <= i < d.len() implies is_digit(#[trigger] d[i]) by {
            if i < h.len() {
                assert(d[i] == h[i]);
            }
        }
    }
}

/// What the monitor writes as a number, `str::parse::<u32>` reads back as
/// that number.
pub proof fn lemma_decimal_text_parses_back(n: u32)
    ensures
        parse_u32(decimal_text(n as nat)) == Some(n),
{
    lemma_decimal_text_digits(n as nat);
    let d = decimal_text(n as nat);
    assert(is_digit(d[0]));
}

/// The decimal text of a number has no leading zero: it starts with `0` only
/// when it is `"0"`.
pub proof fn lemma_decimal_text_no_leading_zero(n: nat)
    ensures
        decimal_text(n).len() > 0,
        n == 0 ==> decimal_text(n) == seq!['0'],
        n > 0 ==> decimal_text(n)[0] != '0',
    decreases n,
{
    if n >= 10 {
        lemma_decimal_text_no_leading_zero(n / 10);
        assert(decimal_text(n)[0] == decimal_text(n / 10)[0]);
    } else {
        assert(decimal_text(n)[0] as int == 48 + n);
    }
}

proof fn lemma_leading_digit_positive(s: Seq<char>)
    requires
        s.len() > 0,
        all_digits(s),
        s[0] != '0',
    ensures
        digits_value(s) >= 1,
    decreases s.len(),
{
    if s.len() == 1 {
        assert(s.drop_last() =~= Seq::<char>::empty());
        assert(digits_value(s.drop_last()) == 0);
        assert(is_digit(s[0]));
    } else {
        let t = s.drop_last();
        assert(is_digit(s[s.len() - 1]));
        assert forall|i: int| 0 <= i < t.len() implies is_digit(#[trigger] t[i]) by {
            assert(t[i] == s[i]);
        }
        lemma_leading_digit_positive(t);
    }
}

/// `decimal_text(n)` is the only way to write `n` in decimal digits without a
/// leading zero: any such digit text with value `n` is it.
pub proof fn lemma_decimal_text_unique(s: Seq<char>, n: nat)
    requires
        s.len() > 0,
        all_digits(s),
        s.len() == 1 || s[0] != '0',
        digits_value(s) == n,
    ensures
        s == decimal_text(n),
    decreases s.len(),
{
    let c = s.last();
    assert(is_digit(s[s.len() - 1]));
    let t = s.drop_last();
    assert forall|i: int| 0 <= i < t.len() implies is_digit(#[trigger] t[i]) by {
        assert(t[i] == s[i]);
    }
    if s.len() == 1 {
        assert(t =~= Seq::<char>::empty());
        assert(digits_value(t) == 0);
        assert(n < 10);
        assert(decimal_text(n)[0] as int == c as int);
        assert(s =~= decimal_text(n));
    } else {
        assert(t[0] == s[0]);
        lemma_leading_digit_positive(t);
        assert(digits_value(t) >= 1);
        assert(n >= 10);
        assert(digits_value(t) == n / 10);
        assert(c as int - 48 == n % 10);
        lemma_decimal_text_unique(t, n / 10);
        let d = decimal_text(n);
        assert(d.last() as int == c as int);
        assert(d =~= s);
    }
}

/// The first line of an error as a panel shows it holds no line feed. It is
/// the whole first line when that takes at most `limit` bytes; otherwise it is
/// the beginning of that line, `keep` bytes long where the cut is clean,
/// followed by `...`.
pub proof fn lemma_error_summary_shape(err: Seq<char>, limit: nat, keep: nat)
    requires
        cuts_cleanly(err, limit, keep),
    ensures
        !error_summary_text(err, limit, keep).contains('\n'),
        utf8_len(first_line(err)) <= limit ==> error_summary_text(err, limit, keep) == first_line(err),
        utf8_len(first_line(err)) > limit ==> exists|p: Seq<char>|
            p.len() <= first_line(err).len() && p == first_line(err).take(p.len() as int)
                && utf8_len(p) == keep && error_summary_text(err, limit, keep) == p + "..."@,
{
    reveal_strlit("...");
    lemma_first_line_is_a_line(err);
    let line = first_line(err);
    if utf8_len(line) > limit {
        let p = line.take(utf8_prefix_len(line, keep) as int);
        lemma_utf8_prefix_len_bound(line, keep);
        assert(p == line.take(p.len() as int));
        let t = p + "..."@;
        assert forall|j: int| 0 <= j < t.len() implies t[j] != '\n' by {
            if j < p.len() {
                assert(t[j] == line[j]);
            }
        }
    }
}

proof fn lemma_utf8_prefix_len_bound(s: Seq<char>, budget: nat)
    ensures
        utf8_prefix_len(s, budget) <= s.len(),
    decreases s.len(),
{
    if utf8_len(s) > budget {
        lemma_utf8_prefix_len_bound(s.drop_last(), budget);
    }
}

/// The help line is the key list, then, when there is a last GPU error, the
/// summary of its first line cut at 60 bytes to 57 and `...`.
pub proof fn lemma_help_line_shows_summary(error: Option<String>)
    ensures
        error is None ==> help_line(error) == "q:quit  p:pause  s:cycle sort  ↑/↓:select  k:kill (confirm)"@,
        error matches Some(e) ==> help_line(error) == "q:quit  p:pause  s:cycle sort  ↑/↓:select  k:kill (confirm)"@
            + "    GPU Err: "@ + error_summary_text(e@, 60, 57),
{
}

/// Without a reading, the GPU panel's title is the summary of the last error's
/// first line cut at 40 bytes to 37 and `...`; with a reading it names the
/// GPU, and its temperature in decimal when that is above 0.
pub proof fn lemma_gpu_title_parts(reading: Option<(u32, u32, String)>, error: Option<String>)
    ensures
        reading is None && error is Some ==> gpu_title(reading, error) == "GPU Error: "@
            + error_summary_text(error->0@, 40, 37),
        match reading {
            Some((_, t, name)) => if t > 0 {
                gpu_title(reading, error) == "GPU - "@ + name@ + " - "@ + decimal_text(t as nat) + "°C"@
            } else {
                gpu_title(reading, error) == "GPU - "@ + name@
            },
            None => true,
        },
{
}

} // verus!
