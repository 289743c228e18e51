//! Names of series and the title of a chart.
use vstd::prelude::*;
use crate::text::chars_to_string;
use crate::text::decimal;
use crate::text::digits_value;
use crate::text::is_digit;
use crate::text::lemma_decimal_round_trip;
use crate::text::push_decimal;
use vstd::string::StringExecFns;

verus! {

/// The name of series `i`: the `i`-th given name, or `y` followed by the
/// series' number counted from one.
pub open spec fn series_name(given: Seq<String>, i: int) -> Seq<char> {
    if i < given.len() {
        given[i]@
    } else {
        seq!['y'] + decimal((i + 1) as nat)
    }
}

/// A given name is used as it is; a series without one is called `y` and its
/// number counted from one, written in decimal digits.
pub proof fn lemma_series_name(given: Seq<String>, i: int)
    requires
        0 <= i,
    ensures
        i < given.len() ==> series_name(given, i) == given[i]@,
        i >= given.len() ==> {
            let name = series_name(given, i);
            &&& name.len() >= 2
            &&& name[0] == 'y'
            &&& digits_value(name.drop_first()) == i + 1
            &&& forall|k: int| 1 <= k < name.len() ==> is_digit(#[trigger] name[k])
        },
{
    if i >= given.len() {
        lemma_decimal_round_trip((i + 1) as nat);
        let d = decimal((i + 1) as nat);
        let name = series_name(given, i);
        assert(name.drop_first() == d);
        assert forall|k: int| 1 <= k < name.len() implies is_digit(#[trigger] name[k]) by {
            assert(name[k] == d[k - 1]);
        }
    }
}

/// The names of `count` series, taken from `given` as far as it goes.
pub fn series_names(given: &Vec<String>, count: usize) -> (names: Vec<String>)
    ensures
        names@.len() == count,
        forall|i: int| 0 <= i < count ==> (#[trigger] names@[i])@ == series_name(given@, i),
{
    let mut names: Vec<String> = Vec::new();
    for i in 0..count
        invariant
            names@.len() == i,
            forall|k: int| 0 <= k < i ==> (#[trigger] names@[k])@ == series_name(given@, k),
    {
        if i < given.len() {
            names.push(given[i].clone());
        } else {
            let mut v: Vec<char> = Vec::new();
            v.push('y');
            push_decimal(&mut v, i + 1);
            names.push(chars_to_string(&v));
        }
    }
    names
}

/// The title of a chart: the given title, or where it is empty the input's
/// name, `stdin` for standard input (`-`).
pub open spec fn chart_title_of(title: Seq<char>, file: Seq<char>) -> Seq<char> {
    if title.len() > 0 {
        title
    } else if file == "-"@ {
        "stdin"@
    } else {
        file
    }
}

/// A given title is always the chart's title, whatever the input; only
/// without one does the title come from the input: `stdin` for standard input
/// (`-`), its name otherwise.
pub proof fn lemma_chart_title(title: Seq<char>, file: Seq<char>)
    ensures
        title.len() > 0 ==> chart_title_of(title, file) == title,
        title.len() == 0 && file == "-"@ ==> chart_title_of(title, file) == "stdin"@,
        title.len() == 0 && file != "-"@ ==> chart_title_of(title, file) == file,
{
}

/// The title of a chart.
pub fn chart_title(title: &str, file: &str) -> (t: String)
    ensures
        t@ == chart_title_of(title@, file@),
        title@.len() > 0 ==> t@ == title@,
        title@.len() == 0 && file@ == "-"@ ==> t@ == "stdin"@,
        title@.len() == 0 && file@ != "-"@ ==> t@ == file@,
{
    if !title.is_empty() {
        String::from_str(title)
    } else if file_is_stdin(file) {
        String::from_str("stdin")
    } else {
        String::from_str(file)
    }
}

/// The input is standard input, named `-`.
fn file_is_stdin(file: &str) -> (b: bool)
    ensures
        b == (file@ == "-"@),
{
    proof {
        reveal_strlit("-");
    }
    let b = file.unicode_len() == 1 && file.get_char(0) == '-';
    proof {
        assert("-"@ == seq!['-']);
        if b {
            assert(file@ =~= "-"@);
        }
    }
    b
}

/// A pie chart's entry from a line's fields: a label and the text of its
/// value, where the line has exactly these two fields.
pub fn label_and_value(fields: &Vec<String>) -> (entry: Option<(String, String)>)
    ensures
        fields@.len() == 2 ==> (entry matches Some((label, value)) && label@ == fields@[0]@
            && value@ == fields@[1]@),
        fields@.len() != 2 ==> entry is None,
{
    if fields.len() == 2 {
        Some((fields[0].clone(), fields[1].clone()))
    } else {
        None
    }
}

} // verus!
