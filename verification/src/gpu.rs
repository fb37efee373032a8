//! GPU readings: the text that `nvidia-smi` prints.

use vstd::prelude::*;
use crate::json::{json_document_text_members, json_from_str, json_text_member, json_text_members};
use crate::display::{decimal_text, lemma_decimal_text_digits, lemma_decimal_text_parses_back};
use crate::text::{
    is_digit, lemma_char_index_at, lemma_trim_end_at, lemma_trim_start_at,
    chars_of, fields, find_char, first_line, first_line_end, lemma_char_index, parse_u32, parse_u32_in, trim,
    trim_bounds,
};

verus! {

/// One reading of a GPU: utilization in percent and temperature in degrees Celsius.
pub struct GpuSample {
    pub utilization: u32,
    pub temperature: u32,
}

/// The reading in the CSV output of
/// `nvidia-smi --query-gpu=utilization.gpu,temperature.gpu --format=csv,noheader,nounits`:
/// the first line is cut at commas, and its first two fields, with surrounding
/// whitespace removed, must each be a `u32` as `str::parse` reads one.
pub open spec fn nvidia_smi_reading(s: Seq<char>) -> Option<(u32, u32)> {
    let parts = fields(first_line(s), ',');
    if parts.len() >= 2 {
        match (parse_u32(trim(parts[0])), parse_u32(trim(parts[1]))) {
            (Some(u), Some(t)) => Some((u, t)),
            _ => None,
        }
    } else {
        None
    }
}

/// Reads utilization and temperature from the first line of `nvidia-smi`'s
/// CSV output, such as `"12, 50\n"`.
pub fn parse_nvidia_smi_output(s: &str) -> (r: Option<(u32, u32)>)
    ensures
        r == nvidia_smi_reading(s@),
{
    let v = chars_of(s);
    let end = first_line_end(&v);
    let ghost line = first_line(s@);
    assert(line =~= v@.subrange(0, end as int));
    let c1 = find_char(&v, 0, end, ',');
    if c1 == end {
        proof {
            assert(fields(line, ',') =~= seq![line]);
        }
        return None;
    }
    let c2 = find_char(&v, c1 + 1, end, ',');
    proof {
        let rest = v@.subrange(c1 + 1, end as int);
        lemma_char_index(line, ',');
        lemma_char_index(rest, ',');
        assert(line.take(c1 as int) =~= v@.subrange(0, c1 as int));
        assert(line.skip(c1 + 1) =~= rest);
        assert(fields(line, ',') == seq![line.take(c1 as int)] + fields(rest, ','));
        if c2 == end {
            assert(fields(rest, ',') == seq![rest]);
        } else {
            assert(fields(rest, ',') == seq![rest.take(c2 - c1 - 1)] + fields(
                rest.skip(c2 - c1),
                ',',
            ));
            assert(rest.take(c2 - c1 - 1) =~= v@.subrange(c1 + 1, c2 as int));
        }
        assert(fields(line, ',')[0] == v@.subrange(0, c1 as int));
        assert(fields(line, ',')[1] == v@.subrange(c1 + 1, c2 as int));
    }
    let (a0, b0) = trim_bounds(&v, 0, c1);
    let (a1, b1) = trim_bounds(&v, c1 + 1, c2);
    match (parse_u32_in(&v, a0, b0), parse_u32_in(&v, a1, b1)) {
        (Some(u), Some(t)) => Some((u, t)),
        _ => None,
    }
}

/// A reading written as `nvidia-smi` prints it, `"<utilization>, <temperature>\n"`
/// with the numbers in decimal, is read back as that reading.
pub proof fn lemma_reading_round_trip(u: u32, t: u32)
    ensures
        nvidia_smi_reading(
            decimal_text(u as nat) + ", "@ + decimal_text(t as nat) + "\n"@,
        ) == Some((u, t)),
{
    reveal_strlit(", ");
    reveal_strlit("\n");
    let du = decimal_text(u as nat);
    let dt = decimal_text(t as nat);
    lemma_decimal_text_digits(u as nat);
    lemma_decimal_text_digits(t as nat);
    lemma_decimal_text_parses_back(u);
    lemma_decimal_text_parses_back(t);
    let s = du + ", "@ + dt + "\n"@;
    let line = du + ", "@ + dt;
    assert(s =~= line.push('\n'));
    assert forall|j: int| 0 <= j < line.len() implies s[j] != '\n' by {
        assert(s[j] == line[j]);
        if j < du.len() {
            assert(is_digit(du[j]));
        } else if j >= du.len() + 2 {
            assert(line[j] == dt[j - du.len() - 2]);
            assert(is_digit(dt[j - du.len() - 2]));
        }
    }
    lemma_char_index_at(s, '\n', line.len() as int);
    assert(s.take(line.len() as int) =~= line);
    assert(is_digit(dt[dt.len() - 1]));
    assert(line.last() == dt.last());
    assert(first_line(s) == line);
    assert forall|j: int| 0 <= j < du.len() implies line[j] != ',' by {
        assert(line[j] == du[j]);
        assert(is_digit(du[j]));
    }
    lemma_char_index_at(line, ',', du.len() as int);
    let rest = line.skip(du.len() + 1int);
    assert(rest =~= seq![' '] + dt);
    assert forall|j: int| 0 <= j < rest.len() implies rest[j] != ',' by {
        if j > 0 {
            assert(rest[j] == dt[j - 1]);
            assert(is_digit(dt[j - 1]));
        }
    }
    lemma_char_index_at(rest, ',', rest.len() as int);
    assert(line.take(du.len() as int) =~= du);
    assert(fields(line, ',') == seq![du] + fields(rest, ','));
    assert(fields(rest, ',') == seq![rest]);
    assert(is_digit(du[0]) && is_digit(du[du.len() - 1]));
    lemma_trim_start_at(du, 0);
    assert(du.skip(0) =~= du);
    lemma_trim_end_at(du, du.len() as int);
    assert(du.take(du.len() as int) =~= du);
    assert(trim(du) == du);
    assert(is_digit(dt[0]));
    lemma_trim_start_at(rest, 1);
    assert(rest.skip(1) =~= dt);
    lemma_trim_end_at(dt, dt.len() as int);
    assert(dt.take(dt.len() as int) =~= dt);
    assert(trim(rest) == dt);
}

/// The GPU name in the JSON that `Get-CimInstance ... Win32_VideoController |
/// ConvertTo-Json` prints: the string member `Name` of the top-level object.
pub open spec fn cim_name(text: Seq<char>) -> Option<Seq<char>> {
    match json_document_text_members(text) {
        Some(members) => if members.contains_key("Name"@) {
            Some(members["Name"@])
        } else {
            None
        },
        None => None,
    }
}

/// The string member `Name` of a parsed document's top-level object.
pub fn document_name(doc: &serde_json::Value) -> (r: Option<String>)
    ensures
        r is Some <==> json_text_members(*doc).contains_key("Name"@),
        r matches Some(n) ==> n@ == json_text_members(*doc)["Name"@],
{
    match json_text_member(doc, "Name") {
        Some(t) => Some(t.to_owned()),
        None => None,
    }
}

/// Reads the GPU name from the JSON of a CIM query, such as
/// `{"Name":"Test GPU","Other":"x"}`; `None` when the text is not JSON or has
/// no string `Name`.
pub fn parse_cim_json(s: &str) -> (r: Option<String>)
    ensures
        r is Some <==> cim_name(s@) is Some,
        r matches Some(n) ==> cim_name(s@) == Some(n@),
{
    match json_from_str(s) {
        Ok(doc) => document_name(&doc),
        Err(_) => None,
    }
}

/// Where a probe of the GPU through command-line tools stands after a query:
/// the next query to make, or the answer. The answer is utilization,
/// temperature and the name of the GPU or of the tool that read it.
pub enum GpuProbe {
    /// Windows' `GPU Engine` utilization counters are to be read next, and
    /// their mean handed to `after_counters`.
    Counters,
    /// The GPU's name is to be asked of CIM next, and the output handed to
    /// `after_name`; the utilization is known.
    Name { utilization: u32 },
    /// The probe is over, with this reading if there is one.
    Finished(Option<(u32, u32, String)>),
}

/// The reading in `nvidia-smi`'s output, when it ran and printed text.
pub open spec fn smi_reading(output: Option<&str>) -> Option<(u32, u32)> {
    match output {
        Some(text) => nvidia_smi_reading(text@),
        None => None,
    }
}

/// The GPU name in a CIM query's output, when it ran and printed text.
pub open spec fn cim_output_name(output: Option<&str>) -> Option<Seq<char>> {
    match output {
        Some(text) => cim_name(text@),
        None => None,
    }
}

/// The first step of a probe: `output` is what `nvidia-smi` printed, if it ran
/// and succeeded. A reading there ends the probe; otherwise Windows is asked
/// for its counters, and other systems have no reading.
pub fn after_nvidia_smi(output: Option<&str>, on_windows: bool) -> (r: GpuProbe)
    ensures
        match smi_reading(output) {
            Some((u, t)) => r matches GpuProbe::Finished(Some((ru, rt, name))) && ru == u && rt == t
                && name@ == "NVIDIA (nvidia-smi)"@,
            None => if on_windows {
                r is Counters
            } else {
                r matches GpuProbe::Finished(None)
            },
        },
{
    let reading = match output {
        Some(text) => parse_nvidia_smi_output(text),
        None => None,
    };
    match reading {
        Some((u, t)) => GpuProbe::Finished(Some((u, t, "NVIDIA (nvidia-smi)".to_owned()))),
        None => if on_windows {
            GpuProbe::Counters
        } else {
            GpuProbe::Finished(None)
        },
    }
}

/// The second step: `average` is the mean of Windows' utilization counters,
/// if they could be read. The utilization is that mean converted as `i32 as
/// u32` converts; without it the probe ends with no reading.
pub fn after_counters(average: Option<i32>) -> (r: GpuProbe)
    ensures
        match average {
            Some(a) => r == (GpuProbe::Name { utilization: a as u32 }),
            None => r matches GpuProbe::Finished(None),
        },
{
    match average {
        Some(a) => GpuProbe::Name { utilization: a as u32 },
        None => GpuProbe::Finished(None),
    }
}

/// The last step: `output` is what the CIM query printed, if it ran and
/// succeeded. The reading has the known utilization, temperature 0, and the
/// name found there, or `Windows GPU`.
pub fn after_name(utilization: u32, output: Option<&str>) -> (r: GpuProbe)
    ensures
        r matches GpuProbe::Finished(Some((u, t, name))) && u == utilization && t == 0
            && name@ == match cim_output_name(output) {
            Some(n) => n,
            None => "Windows GPU"@,
        },
{
    let found = match output {
        Some(text) => parse_cim_json(text),
        None => None,
    };
    let name = match found {
        Some(n) => n,
        None => "Windows GPU".to_owned(),
    };
    GpuProbe::Finished(Some((utilization, 0, name)))
}

} // verus!
