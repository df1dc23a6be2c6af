//! Run-time settings: what each environment variable asks for, and which audio
//! source to capture.

use crate::text::{
    digits, law_number_reads_back, parse_number, trim, trimmed, unsigned_digits, value,
    writes_number,
};
use vstd::prelude::*;
use vstd::string::*;

verus! {

/// Default multisampling count: off. Strokes and fills carry their own
/// feathered fringe, so multisampling costs time for no visible gain.
pub const SAMPLE_COUNT: u32 = 1;

/// The number a variable holds, when it is one no larger than `max`, white
/// space around it aside.
pub open spec fn number_in(var: Option<Seq<char>>, max: int) -> Option<int> {
    match var {
        None => None,
        Some(s) => if writes_number(trimmed(s), max) {
            Some(value(unsigned_digits(trimmed(s))))
        } else {
            None
        },
    }
}

/// What an optional text holds.
pub open spec fn held(var: Option<&str>) -> Option<Seq<char>> {
    match var {
        None => None,
        Some(s) => Some(s@),
    }
}

fn read_number(var: Option<&str>, max: u64) -> (r: Option<u64>)
    ensures
        r is Some <==> number_in(held(var), max as int) is Some,
        r is Some ==> number_in(held(var), max as int) == Some(r->0 as int),
{
    match var {
        None => None,
        Some(s) => parse_number(trim(s), max),
    }
}

/// Multisampling counts that can be asked for.
pub open spec fn sample_choice(n: int) -> bool {
    n == 1 || n == 2 || n == 4 || n == 8
}

/// The multisampling count `MSAA` asks for: 1, 2, 4 or 8; anything else, or
/// nothing, leaves the default.
pub fn requested_sample_count(var: Option<&str>) -> (n: u32)
    ensures
        n == match number_in(held(var), u32::MAX as int) {
            Some(v) => if sample_choice(v) {
                v
            } else {
                SAMPLE_COUNT as int
            },
            None => SAMPLE_COUNT as int,
        },
        sample_choice(n as int),
{
    match read_number(var, u32::MAX as u64) {
        Some(v) => if v == 1 || v == 2 || v == 4 || v == 8 {
            v as u32
        } else {
            SAMPLE_COUNT
        },
        None => SAMPLE_COUNT,
    }
}

/// Index of the visual that the one-based number `n` names out of `count`,
/// limited to the last one.
pub open spec fn visual_index(n: int, count: int) -> int {
    if n <= 1 {
        0
    } else if n > count {
        count - 1
    } else {
        n - 1
    }
}

/// The visual `START_VISUAL` asks for, by its one-based number; the first when
/// it names none.
pub fn start_visual(var: Option<&str>, count: usize) -> (current: usize)
    requires
        count > 0,
    ensures
        current == match number_in(held(var), usize::MAX as int) {
            Some(n) => visual_index(n, count as int),
            None => 0,
        },
        current < count,
{
    match read_number(var, usize::MAX as u64) {
        Some(n) => if n <= 1 {
            0
        } else if n > count as u64 {
            count - 1
        } else {
            (n - 1) as usize
        },
        None => 0,
    }
}

// -- audio source -----------------------------------------------------------
/// The source an explicit override names, if any.
pub open spec fn named(var: Option<Seq<char>>) -> Option<Seq<char>> {
    match var {
        Some(s) => if trimmed(s).len() > 0 {
            Some(trimmed(s))
        } else {
            None
        },
        None => None,
    }
}

/// The monitor of the default sink, given what the query for it printed when it
/// succeeded.
pub open spec fn monitor_of(printed: Option<Seq<char>>) -> Option<Seq<char>> {
    match named(printed) {
        Some(sink) => Some(sink + ".monitor"@),
        None => None,
    }
}

/// What an optional string holds.
pub open spec fn text_of(s: Option<String>) -> Option<Seq<char>> {
    match s {
        None => None,
        Some(t) => Some(t@),
    }
}

/// The source `AUDIO_SOURCE` names: an explicit override wins, so nothing else
/// needs to be asked when there is one.
pub fn named_source(var: Option<&str>) -> (source: Option<String>)
    ensures
        text_of(source) == named(held(var)),
{
    match var {
        None => None,
        Some(s) => {
            let t: &str = trim(s);
            if t.unicode_len() == 0 {
                None
            } else {
                let mut out: String = String::new();
                out.append(t);
                assert(out@ =~= t@);
                Some(out)
            }
        },
    }
}

/// The monitor source of the default sink. `printed` is what the query for the
/// sink wrote, and absent when it could not be run, failed, or wrote no text.
pub fn sink_monitor(printed: Option<&str>) -> (source: Option<String>)
    ensures
        text_of(source) == monitor_of(held(printed)),
{
    match named_source(printed) {
        None => None,
        Some(sink) => {
            let mut out: String = sink;
            out.append(".monitor");
            Some(out)
        },
    }
}

/// The source to capture: the override, or the default sink's monitor.
pub open spec fn monitor_source(var: Option<Seq<char>>, printed: Option<Seq<char>>) -> Option<
    Seq<char>,
> {
    match named(var) {
        Some(name) => Some(name),
        None => monitor_of(printed),
    }
}

/// Resolve the source to capture from both answers.
pub fn resolve_monitor_source(var: Option<&str>, printed: Option<&str>) -> (source: Option<String>)
    ensures
        text_of(source) == monitor_source(held(var), held(printed)),
{
    match named_source(var) {
        Some(name) => Some(name),
        None => sink_monitor(printed),
    }
}

/// An override decides, whatever the default sink is.
pub proof fn law_override_wins(
    var: Option<Seq<char>>,
    printed: Option<Seq<char>>,
    other: Option<Seq<char>>,
)
    requires
        named(var) is Some,
    ensures
        monitor_source(var, printed) == monitor_source(var, other),
        monitor_source(var, printed) == named(var),
{
}

/// Whether two texts are the same.
fn same_text(a: &str, b: &str) -> (r: bool)
    ensures
        r == (a@ == b@),
{
    let n: usize = a.unicode_len();
    if n != b.unicode_len() {
        return false;
    }
    let mut i: usize = 0;
    while i < n
        invariant
            i <= n == a@.len() == b@.len(),
            forall|k: int| 0 <= k < i ==> a@[k] == b@[k],
        decreases n - i,
    {
        if a.get_char(i) != b.get_char(i) {
            return false;
        }
        i = i + 1;
    }
    assert(a@ =~= b@);
    true
}

/// The device is the sound server's.
pub open spec fn is_server(name: Option<String>) -> bool {
    text_of(name) == Some("pulse"@)
}

/// The input device to open, out of the names of those there are, when a
/// monitor was resolved: the sound server's, which carries the monitor stream.
/// `None` stands for the default device.
pub fn pick_device(resolved: bool, names: &[Option<String>]) -> (pick: Option<usize>)
    ensures
        pick is Some <==> resolved && exists|i: int|
            0 <= i < names@.len() && is_server(#[trigger] names@[i]),
        pick is Some ==> pick->0 < names@.len() && is_server(names@[pick->0 as int]) && (forall|
            i: int,
        |
            0 <= i < pick->0 ==> !is_server(#[trigger] names@[i])),
{
    if !resolved {
        return None;
    }
    let mut i: usize = 0;
    while i < names.len()
        invariant
            i <= names@.len(),
            resolved,
            forall|k: int| 0 <= k < i ==> !is_server(#[trigger] names@[k]),
        decreases names@.len() - i,
    {
        let found: bool = match &names[i] {
            Some(name) => same_text(name.as_str(), "pulse"),
            None => false,
        };
        if found {
            assert(is_server(names@[i as int]));
            return Some(i);
        }
        i = i + 1;
    }
    None
}

/// A visual is named by its number counted from one, limited to those there are.
pub proof fn law_visual_index(n: int, count: int)
    requires
        count > 0,
    ensures
        0 <= visual_index(n, count) < count,
        1 <= n <= count ==> visual_index(n, count) + 1 == n,
        n < 1 ==> visual_index(n, count) == 0,
        n > count ==> visual_index(n, count) + 1 == count,
{
}

/// The number of samples is a power of two from one to eight.
pub proof fn law_sample_choices(n: int)
    ensures
        sample_choice(n) <==> n == 1 || n == 2 || n == 4 || n == 8,
{
}

/// A variable holds the number that its text writes between white space, and none
/// where it writes no number or one that is too large.
pub proof fn law_number_in(n: int, max: int, s: Seq<char>)
    requires
        n >= 0,
        trimmed(s) == digits(n),
    ensures
        number_in(None, max) is None,
        n <= max ==> number_in(Some(s), max) == Some(n),
        n > max ==> number_in(Some(s), max) is None,
{
    law_number_reads_back(n, max);
}

/// A source is named by the text between the white space, where there is any.
pub proof fn law_named(s: Seq<char>)
    ensures
        named(None) is None,
        trimmed(s).len() == 0 ==> named(Some(s)) is None,
        trimmed(s).len() > 0 ==> named(Some(s)) == Some(trimmed(s)),
{
}

/// The monitor of a sink is the sink's name with `.monitor` behind it; with no name
/// there is no monitor.
pub proof fn law_monitor(s: Seq<char>)
    ensures
        monitor_of(None) is None,
        trimmed(s).len() == 0 ==> monitor_of(Some(s)) is None,
        trimmed(s).len() > 0 ==> monitor_of(Some(s)) == Some(
            trimmed(s) + seq!['.', 'm', 'o', 'n', 'i', 't', 'o', 'r'],
        ),
        monitor_source(None, Some(s)) == monitor_of(Some(s)),
{
    reveal_strlit(".monitor");
    assert(".monitor"@ =~= seq!['.', 'm', 'o', 'n', 'i', 't', 'o', 'r']);
}

/// The number of samples is the one that was asked for where it is one of the choices,
/// and one otherwise.
pub proof fn law_sample_count_asked(var: &str, v: int, n: u32, plain: u32)
    requires
        v >= 0,
        trimmed(var@) == digits(v),
        call_ensures(requested_sample_count, (Some(var),), n),
        call_ensures(requested_sample_count, (None,), plain),
    ensures
        plain == 1,
        v == 1 || v == 2 || v == 4 || v == 8 ==> n == v,
        v != 2 && v != 4 && v != 8 ==> n == 1,
{
    law_number_in(v, u32::MAX as int, var@);
}

/// The first visual is the one whose number was asked for, counted from one and
/// limited to those there are, and the first of all otherwise.
pub proof fn law_start_visual(var: &str, v: int, count: usize, current: usize, plain: usize)
    requires
        count > 0,
        0 <= v <= usize::MAX,
        trimmed(var@) == digits(v),
        call_ensures(start_visual, (Some(var), count), current),
        call_ensures(start_visual, (None, count), plain),
    ensures
        plain == 0,
        1 <= v <= count ==> current + 1 == v,
        v == 0 ==> current == 0,
        v > count ==> current + 1 == count,
{
    law_number_in(v, usize::MAX as int, var@);
}

} // verus!
