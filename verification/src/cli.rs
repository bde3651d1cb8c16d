//! The command line: its options, and how the devices it names are resolved
//! to node names.
use vstd::prelude::*;

use crate::detector::{SinkDevice, SinkView, sinks_view};
use crate::text::{
    all_digits, decimal, digit_char, digit_value, digits_value, is_digit, is_numeric, is_numeric_text,
    lemma_numeric_parse, parse_u32, parse_u32_spec, push_decimal, push_str, trim_leading_zeros,
};

verus! {

/// The options of the command line.
#[derive(Clone, Debug)]
pub struct Args {
    /// List available audio sinks and exit.
    pub list: bool,
    /// Name for the merged sink (shown in pavucontrol / audio settings).
    pub sink_name: String,
    /// Sink IDs or node names to merge (2 or more required).
    pub devices: Vec<String>,
    /// Media role applied to the virtual sink (Music, Movie, Game ...).
    pub media_role: String,
    /// Verbose logging.
    pub verbose: bool,
}

impl Args {
    /// The logging filter used when the environment sets none: debug
    /// output of this program with `--verbose`, else info.
    pub fn log_filter(&self) -> (r: String)
        ensures
            r@ == (if self.verbose {
                "pw_merger=debug"@
            } else {
                "pw_merger=info"@
            }),
    {
        if self.verbose {
            "pw_merger=debug".to_owned()
        } else {
            "pw_merger=info".to_owned()
        }
    }
}

/// Why the devices on the command line could not be resolved.
#[derive(Clone, Debug, PartialEq, Eq)]
pub enum ResolveError {
    /// Fewer than two devices were given; this many were.
    TooFewDevices(usize),
    /// A numeric device names no listed sink; this is its number, in
    /// decimal with no leading zero.
    NoSinkWithId(String),
}

/// The model of a `ResolveError`.
pub enum ResolveFailure {
    TooFewDevices(usize),
    NoSinkWithId(Seq<char>),
}

impl View for ResolveError {
    type V = ResolveFailure;

    open spec fn view(&self) -> ResolveFailure {
        match self {
            ResolveError::TooFewDevices(n) => ResolveFailure::TooFewDevices(*n),
            ResolveError::NoSinkWithId(id) => ResolveFailure::NoSinkWithId(id@),
        }
    }
}

/// The hint that follows each resolution error.
pub open spec fn list_hint() -> Seq<char> {
    ".\nRun `pw-merger --list` to see available sinks."@
}

/// The message shown for a resolution error.
pub open spec fn resolve_message_spec(e: ResolveFailure) -> Seq<char> {
    match e {
        ResolveFailure::TooFewDevices(n) => "need at least 2 sink IDs, got "@ + decimal(n as nat) + list_hint(),
        ResolveFailure::NoSinkWithId(id) => "no audio sink with ID "@ + id + list_hint(),
    }
}

impl ResolveError {
    /// The message shown to the user.
    pub fn message(&self) -> (r: String)
        ensures
            r@ == resolve_message_spec(self@),
    {
        let mut s = String::new();
        match self {
            ResolveError::TooFewDevices(n) => {
                push_str(&mut s, "need at least 2 sink IDs, got ");
                push_decimal(&mut s, *n as u64);
            },
            ResolveError::NoSinkWithId(id) => {
                push_str(&mut s, "no audio sink with ID ");
                push_str(&mut s, id.as_str());
            },
        }
        push_str(&mut s, ".\nRun `pw-merger --list` to see available sinks.");
        assert(s@ =~= resolve_message_spec(self@));
        s
    }
}

/// The first sink of `sinks` whose id is `id`.
pub open spec fn first_with_id(sinks: Seq<SinkView>, id: nat) -> Option<SinkView>
    decreases sinks.len(),
{
    if sinks.len() == 0 {
        None
    } else if sinks[0].id == id {
        Some(sinks[0])
    } else {
        first_with_id(sinks.drop_first(), id)
    }
}

/// No sink has an id beyond the range of `u32`.
proof fn lemma_no_sink_beyond_u32(sinks: Seq<SinkView>, id: nat)
    requires
        id > u32::MAX,
    ensures
        first_with_id(sinks, id) is None,
    decreases sinks.len(),
{
    if sinks.len() > 0 {
        lemma_no_sink_beyond_u32(sinks.drop_first(), id);
    }
}

/// What a device given on the command line stands for: a purely numeric
/// identifier is a PipeWire global id and stands for the name of the listed
/// sink with that id (when there is none, the error names the id in
/// decimal); anything else is a node name already.
pub open spec fn resolve_spec(device: Seq<char>, sinks: Seq<SinkView>) -> Result<Seq<char>, Seq<char>> {
    if is_numeric(device) {
        match first_with_id(sinks, digits_value(device)) {
            Some(s) => Ok(s.name),
            None => Err(decimal(digits_value(device))),
        }
    } else {
        Ok(device)
    }
}

/// Resolves one device identifier to a node name (see `resolve_spec`).
pub fn resolve_device(id_str: &str, sinks: &Vec<SinkDevice>) -> (r: Result<String, ResolveError>)
    ensures
        match r {
            Ok(name) => resolve_spec(id_str@, sinks_view(sinks@)) == Ok::<Seq<char>, Seq<char>>(name@),
            Err(e) => {
                &&& e@ == ResolveFailure::NoSinkWithId(decimal(digits_value(id_str@)))
                &&& resolve_spec(id_str@, sinks_view(sinks@)) == Err::<Seq<char>, Seq<char>>(
                    decimal(digits_value(id_str@)),
                )
            },
        },
{
    if !is_numeric_text(id_str) {
        return Ok(id_str.to_owned());
    }
    proof {
        lemma_numeric_parse(id_str@);
    }
    let id = match parse_u32(id_str) {
        Some(v) => v,
        None => {
            proof {
                lemma_no_sink_beyond_u32(sinks_view(sinks@), digits_value(id_str@));
            }
            return Err(ResolveError::NoSinkWithId(trim_leading_zeros(id_str)));
        },
    };
    let mut i: usize = 0;
    assert(sinks_view(sinks@).skip(0) =~= sinks_view(sinks@));
    while i < sinks.len()
        invariant
            i <= sinks@.len(),
            is_numeric(id_str@),
            digits_value(id_str@) == id,
            first_with_id(sinks_view(sinks@), id as nat) == first_with_id(
                sinks_view(sinks@).skip(i as int),
                id as nat,
            ),
        decreases sinks@.len() - i,
    {
        let ghost rest = sinks_view(sinks@).skip(i as int);
        assert(rest[0] == sinks@[i as int]@);
        if sinks[i].id == id {
            return Ok(sinks[i].name.clone());
        }
        assert(rest.drop_first() =~= sinks_view(sinks@).skip(i + 1));
        i = i + 1;
    }
    Err(ResolveError::NoSinkWithId(trim_leading_zeros(id_str)))
}

/// What the devices on the command line stand for: at least two are
/// needed; each is resolved in turn and the first that fails decides the
/// error.
pub open spec fn resolve_all_spec(devices: Seq<Seq<char>>, sinks: Seq<SinkView>) -> Result<
    Seq<Seq<char>>,
    ResolveFailure,
> {
    if devices.len() < 2 {
        Err(ResolveFailure::TooFewDevices(devices.len() as usize))
    } else {
        resolve_each(devices, sinks)
    }
}

/// The devices resolved in turn, or the first that fails.
pub open spec fn resolve_each(devices: Seq<Seq<char>>, sinks: Seq<SinkView>) -> Result<
    Seq<Seq<char>>,
    ResolveFailure,
>
    decreases devices.len(),
{
    if devices.len() == 0 {
        Ok(Seq::empty())
    } else {
        match resolve_each(devices.drop_last(), sinks) {
            Err(e) => Err(e),
            Ok(names) => match resolve_spec(devices.last(), sinks) {
                Ok(n) => Ok(names.push(n)),
                Err(id) => Err(ResolveFailure::NoSinkWithId(id)),
            },
        }
    }
}

/// Two devices are enough: a list of two or more is never refused for its
/// length, and every device is resolved in turn; only a list of fewer than
/// two is refused for its length, with the number it has.
pub proof fn law_two_devices_are_enough(devices: Seq<Seq<char>>, sinks: Seq<SinkView>)
    ensures
        devices.len() >= 2 ==> resolve_all_spec(devices, sinks) == resolve_each(devices, sinks),
        devices.len() >= 2 ==> !(resolve_all_spec(devices, sinks) matches Err(ResolveFailure::TooFewDevices(_))),
        devices.len() < 2 ==> resolve_all_spec(devices, sinks) == Err::<Seq<Seq<char>>, ResolveFailure>(
            ResolveFailure::TooFewDevices(devices.len() as usize),
        ),
{
    if devices.len() >= 2 {
        lemma_resolve_each_failure(devices, sinks);
    }
}

/// Resolving devices one by one fails, if at all, on an id that names no
/// sink, never for the number of devices.
proof fn lemma_resolve_each_failure(devices: Seq<Seq<char>>, sinks: Seq<SinkView>)
    ensures
        !(resolve_each(devices, sinks) matches Err(ResolveFailure::TooFewDevices(_))),
    decreases devices.len(),
{
    if devices.len() > 0 {
        lemma_resolve_each_failure(devices.drop_last(), sinks);
    }
}

/// Devices that are all node names, two or more of them, resolve to
/// themselves: merging two devices by name needs no listed sink.
pub proof fn law_two_names_merge_as_given(devices: Seq<Seq<char>>, sinks: Seq<SinkView>)
    requires
        devices.len() >= 2,
        forall|i: int| 0 <= i < devices.len() ==> !is_numeric(#[trigger] devices[i]),
    ensures
        resolve_all_spec(devices, sinks) == Ok::<Seq<Seq<char>>, ResolveFailure>(devices),
{
    lemma_names_resolve_each(devices, sinks);
}

proof fn lemma_names_resolve_each(devices: Seq<Seq<char>>, sinks: Seq<SinkView>)
    requires
        forall|i: int| 0 <= i < devices.len() ==> !is_numeric(#[trigger] devices[i]),
    ensures
        resolve_each(devices, sinks) == Ok::<Seq<Seq<char>>, ResolveFailure>(devices),
    decreases devices.len(),
{
    if devices.len() > 0 {
        let front = devices.drop_last();
        assert forall|i: int| 0 <= i < front.len() implies !is_numeric(#[trigger] front[i]) by {
            assert(front[i] == devices[i]);
        }
        lemma_names_resolve_each(front, sinks);
        assert(!is_numeric(devices[devices.len() - 1]));
        assert(front.push(devices.last()) =~= devices);
    } else {
        assert(devices =~= Seq::<Seq<char>>::empty());
    }
}

/// The names of a list of strings.
pub open spec fn strings_view(s: Seq<String>) -> Seq<Seq<char>> {
    s.map_values(|x: String| x@)
}

/// Resolves all the devices given on the command line (see
/// `resolve_all_spec`).
pub fn resolve_devices(devices: &Vec<String>, sinks: &Vec<SinkDevice>) -> (r: Result<
    Vec<String>,
    ResolveError,
>)
    ensures
        match r {
            Ok(names) => resolve_all_spec(strings_view(devices@), sinks_view(sinks@)) == Ok::<
                Seq<Seq<char>>,
                ResolveFailure,
            >(strings_view(names@)),
            Err(e) => resolve_all_spec(strings_view(devices@), sinks_view(sinks@)) == Err::<
                Seq<Seq<char>>,
                ResolveFailure,
            >(e@),
        },
{
    if devices.len() < 2 {
        return Err(ResolveError::TooFewDevices(devices.len()));
    }
    let mut names: Vec<String> = Vec::new();
    let mut i: usize = 0;
    assert(strings_view(devices@).subrange(0, 0) =~= Seq::<Seq<char>>::empty());
    assert(strings_view(names@) =~= Seq::<Seq<char>>::empty());
    while i < devices.len()
        invariant
            i <= devices@.len(),
            devices@.len() >= 2,
            names@.len() == i,
            resolve_each(strings_view(devices@).subrange(0, i as int), sinks_view(sinks@)) == Ok::<
                Seq<Seq<char>>,
                ResolveFailure,
            >(strings_view(names@)),
        decreases devices@.len() - i,
    {
        let ghost pre = strings_view(devices@).subrange(0, i + 1);
        assert(pre.drop_last() =~= strings_view(devices@).subrange(0, i as int));
        assert(pre.last() == devices@[i as int]@);
        match resolve_device(devices[i].as_str(), sinks) {
            Ok(n) => {
                let ghost before = strings_view(names@);
                names.push(n);
                assert(strings_view(names@) =~= before.push(names@[i as int]@));
            },
            Err(e) => {
                proof {
                    assert(resolve_each(pre, sinks_view(sinks@)) == Err::<Seq<Seq<char>>, ResolveFailure>(e@));
                    lemma_resolve_each_keeps_error(strings_view(devices@), sinks_view(sinks@), i + 1, e@);
                }
                return Err(e);
            },
        }
        i = i + 1;
    }
    assert(strings_view(devices@).subrange(0, i as int) =~= strings_view(devices@));
    Ok(names)
}

/// Once resolving a prefix fails, resolving the whole list fails the same way.
proof fn lemma_resolve_each_keeps_error(devices: Seq<Seq<char>>, sinks: Seq<SinkView>, k: int, e: ResolveFailure)
    requires
        0 <= k <= devices.len(),
        resolve_each(devices.subrange(0, k), sinks) == Err::<Seq<Seq<char>>, ResolveFailure>(e),
    ensures
        resolve_each(devices, sinks) == Err::<Seq<Seq<char>>, ResolveFailure>(e),
    decreases devices.len() - k,
{
    if k < devices.len() {
        let next = devices.subrange(0, k + 1);
        assert(next.drop_last() =~= devices.subrange(0, k));
        lemma_resolve_each_keeps_error(devices, sinks, k + 1, e);
    } else {
        assert(devices.subrange(0, k) =~= devices);
    }
}

/// The digits of a number never start with `+` and are all digits.
proof fn lemma_decimal_digits(n: nat)
    ensures
        decimal(n).len() > 0,
        all_digits(decimal(n)),
        digits_value(decimal(n)) == n,
    decreases n,
{
    let c = digit_char(n % 10);
    assert(c as u32 == (n % 10) + 48);
    assert(digit_value(c) == n % 10);
    if n >= 10 {
        lemma_decimal_digits(n / 10);
        assert(n == (n / 10) * 10 + n % 10);
        let d = decimal(n);
        assert(d.drop_last() =~= decimal(n / 10));
        assert(d.last() == digit_char(n % 10));
        assert forall|i: int| 0 <= i < d.len() implies is_digit(#[trigger] d[i]) by {
            if i < d.len() - 1 {
                assert(d[i] == decimal(n / 10)[i]);
            }
        }
        assert(digits_value(d) == digits_value(d.drop_last()) * 10 + digit_value(d.last()));
    } else {
        let d = decimal(n);
        assert(d.drop_last() =~= Seq::<char>::empty());
        assert(digits_value(d) == digits_value(d.drop_last()) * 10 + digit_value(d.last()));
    }
}

/// Reading back the digits that a number is written with gives the number.
pub proof fn law_decimal_reads_back(n: u32)
    ensures
        is_numeric(decimal(n as nat)),
        digits_value(decimal(n as nat)) == n,
        parse_u32_spec(decimal(n as nat)) == Some(n),
{
    lemma_decimal_digits(n as nat);
    lemma_numeric_parse(decimal(n as nat));
}

/// A device given by the id that `--list` shows for a sink resolves to
/// that sink's name, when no other listed sink has the same id.
pub proof fn law_listed_id_resolves_to_name(sinks: Seq<SinkView>, i: int)
    requires
        0 <= i < sinks.len(),
        forall|j: int| 0 <= j < sinks.len() && j != i ==> sinks[j].id != sinks[i].id,
    ensures
        resolve_spec(decimal(sinks[i].id as nat), sinks) == Ok::<Seq<char>, Seq<char>>(sinks[i].name),
{
    law_decimal_reads_back(sinks[i].id);
    lemma_first_with_id(sinks, i);
}

proof fn lemma_first_with_id(sinks: Seq<SinkView>, i: int)
    requires
        0 <= i < sinks.len(),
        forall|j: int| 0 <= j < i ==> sinks[j].id != sinks[i].id,
    ensures
        first_with_id(sinks, sinks[i].id as nat) == Some(sinks[i]),
    decreases i,
{
    if i > 0 {
        lemma_first_with_id(sinks.drop_first(), i - 1);
    }
}

/// A device that is not purely numeric is a node name and stays as it is.
pub proof fn law_names_resolve_to_themselves(device: Seq<char>, sinks: Seq<SinkView>)
    requires
        !is_numeric(device),
    ensures
        resolve_spec(device, sinks) == Ok::<Seq<char>, Seq<char>>(device),
{
}

/// A purely numeric device that no listed sink has as its id is refused,
/// whatever its size, and the error names the number it writes.
pub proof fn law_unknown_number_is_refused(device: Seq<char>, sinks: Seq<SinkView>)
    requires
        is_numeric(device),
        forall|j: int| 0 <= j < sinks.len() ==> sinks[j].id != digits_value(device),
    ensures
        resolve_spec(device, sinks) == Err::<Seq<char>, Seq<char>>(decimal(digits_value(device))),
    decreases sinks.len(),
{
    if sinks.len() > 0 {
        law_unknown_number_is_refused(device, sinks.drop_first());
    }
}

} // verus!
