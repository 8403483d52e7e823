//! Choosing capture devices: the list shown in the settings, the microphone
//! to use, the device carrying the system's own output, and which sources a
//! recording captures. The devices are known by name; capture, mixing and
//! resampling (floating point) stay with the app.
use vstd::prelude::*;
use crate::text::{find_sub, find_sub_in, str_eq, to_chars, to_lowercase, lowercase_of};
use crate::types::AudioDevice;

verus! {

/// Device names as values; `None` for a device whose name cannot be read.
pub open spec fn name_views(names: Seq<Option<String>>) -> Seq<Option<Seq<char>>> {
    names.map_values(|n: Option<String>| crate::calendar::opt_text(n))
}

/// The entries of the device list: each device whose name can be read,
/// with that name as id and label, marked default when it is the default
/// device's name.
pub open spec fn device_entries(names: Seq<Option<Seq<char>>>, default_name: Option<Seq<char>>) -> Seq<(Seq<char>, Seq<char>, bool)>
    decreases names.len(),
{
    if names.len() == 0 {
        seq![]
    } else {
        let prev = device_entries(names.drop_last(), default_name);
        match names.last() {
            Some(n) => prev.push((n, n, default_name == Some(n))),
            None => prev,
        }
    }
}

/// Audio devices as values.
pub open spec fn device_views(ds: Seq<AudioDevice>) -> Seq<(Seq<char>, Seq<char>, bool)> {
    ds.map_values(|d: AudioDevice| (d.id@, d.name@, d.is_default))
}

/// The capture devices for the settings, from the devices' names and the
/// default input device's name.
pub fn audio_devices(names: &[Option<String>], default_name: Option<&str>) -> (r: Vec<AudioDevice>)
    ensures
        device_views(r@) == device_entries(
            name_views(names@),
            match default_name {
                Some(d) => Some(d@),
                None => None,
            },
        ),
{
    let ghost nv = name_views(names@);
    let ghost dn = match default_name {
        Some(d) => Some(d@),
        None => None::<Seq<char>>,
    };
    let mut out: Vec<AudioDevice> = Vec::new();
    let mut i: usize = 0;
    assert(device_views(out@) =~= device_entries(nv.take(0), dn));
    while i < names.len()
        invariant
            0 <= i <= names@.len(),
            nv == name_views(names@),
            dn == (match default_name {
                Some(d) => Some(d@),
                None => None::<Seq<char>>,
            }),
            device_views(out@) == device_entries(nv.take(i as int), dn),
        decreases names@.len() - i,
    {
        proof {
            let t = nv.take(i + 1);
            assert(t.drop_last() =~= nv.take(i as int));
            assert(t.last() == nv[i as int]);
        }
        match &names[i] {
            Some(n) => {
                let is_default = match default_name {
                    Some(d) => str_eq(n.as_str(), d),
                    None => false,
                };
                let ghost before = device_views(out@);
                out.push(AudioDevice { id: n.clone(), name: n.clone(), is_default });
                assert(device_views(out@) =~= before.push((n@, n@, dn == Some(n@))));
            },
            None => {},
        }
        i = i + 1;
    }
    assert(nv.take(names@.len() as int) =~= nv);
    out
}

/// The first device named `id`.
pub open spec fn named_index(names: Seq<Option<Seq<char>>>, id: Seq<char>) -> Option<int>
    decreases names.len(),
{
    if names.len() == 0 {
        None
    } else if names[0] == Some(id) {
        Some(0)
    } else {
        match named_index(names.drop_first(), id) {
            Some(i) => Some(i + 1),
            None => None,
        }
    }
}

/// The microphone to record from: the first device named as the settings
/// say, if there is one; `None` means the default input device.
pub fn pick_input(names: &[Option<String>], id: Option<&str>) -> (r: Option<usize>)
    ensures
        match id {
            None => r is None,
            Some(x) => match r {
                Some(i) => named_index(name_views(names@), x@) == Some(i as int),
                None => named_index(name_views(names@), x@) is None,
            },
        },
{
    let x = match id {
        Some(x) => x,
        None => return None,
    };
    let ghost nv = name_views(names@);
    let mut i: usize = 0;
    assert(nv.skip(0) =~= nv);
    while i < names.len()
        invariant
            0 <= i <= names@.len(),
            nv == name_views(names@),
            id == Some(x),
            named_index(nv, x@) == match named_index(nv.skip(i as int), x@) {
                Some(k) => Some(k + i),
                None => None,
            },
        decreases names@.len() - i,
    {
        assert(nv.skip(i as int)[0] == nv[i as int]);
        assert(nv.skip(i as int).drop_first() =~= nv.skip(i + 1));
        let hit = match &names[i] {
            Some(n) => str_eq(n.as_str(), x),
            None => false,
        };
        if hit {
            return Some(i);
        }
        i = i + 1;
    }
    assert(nv.skip(i as int).len() == 0);
    None
}

/// Name fragments of devices that carry the system's own output:
/// PulseAudio/PipeWire ".monitor" sources, "Stereo Mix", loopback drivers.
pub open spec fn system_patterns() -> Seq<Seq<char>> {
    seq![
        "monitor"@,
        "stereo mix"@,
        "blackhole"@,
        "aggregate"@,
        "loopback"@,
        "soundflower"@,
        "what u hear"@,
        "wave out"@,
    ]
}

/// A device name that, lowercased, contains one of the patterns.
pub open spec fn is_system_name(name: Seq<char>) -> bool {
    exists|k: int|
        0 <= k < system_patterns().len() && find_sub(lowercase_of(name), #[trigger] system_patterns()[k])
            is Some
}

/// A device name is a system-audio name exactly when, lowercased, it holds
/// one of the patterns somewhere: at its start, at its end (as in
/// `….monitor`) or anywhere between.
pub proof fn law_system_name_holds_pattern(name: Seq<char>)
    ensures
        is_system_name(name) <==> exists|k: int, i: int|
            #![trigger lowercase_of(name).subrange(i, i + system_patterns()[k].len())]
            0 <= k < system_patterns().len() && 0 <= i && i + system_patterns()[k].len()
                <= lowercase_of(name).len() && lowercase_of(name).subrange(
                i,
                i + system_patterns()[k].len(),
            ) == system_patterns()[k],
{
    let low = lowercase_of(name);
    if is_system_name(name) {
        let k = choose|k: int|
            0 <= k < system_patterns().len() && find_sub(low, #[trigger] system_patterns()[k]) is Some;
        let p = system_patterns()[k];
        crate::text::lemma_find_sub(low, p);
        let i = find_sub(low, p)->0;
        assert(low.skip(i).take(p.len() as int) =~= low.subrange(i, i + p.len()));
    }
    assert forall|k: int, i: int|
        0 <= k < system_patterns().len() && 0 <= i && i + system_patterns()[k].len() <= low.len()
            && #[trigger] low.subrange(i, i + system_patterns()[k].len()) == system_patterns()[k]
        implies is_system_name(name) by {
        let p = system_patterns()[k];
        crate::text::lemma_find_sub(low, p);
        assert(low.skip(i).take(p.len() as int) =~= low.subrange(i, i + p.len()));
        assert(crate::text::starts_with(low.skip(i), p));
        assert(find_sub(low, system_patterns()[k]) is Some);
    }
}

fn matches_system(name: &str) -> (r: bool)
    ensures
        r == is_system_name(name@),
{
    let low = to_lowercase(name);
    let v = to_chars(low.as_str());
    let ps: Vec<&str> = vec![
        "monitor",
        "stereo mix",
        "blackhole",
        "aggregate",
        "loopback",
        "soundflower",
        "what u hear",
        "wave out",
    ];
    let ghost pv = ps@.map_values(|s: &str| s@);
    assert(pv =~= system_patterns());
    let mut k: usize = 0;
    while k < ps.len()
        invariant
            0 <= k <= ps@.len(),
            pv == ps@.map_values(|s: &str| s@),
            pv == system_patterns(),
            v@ == lowercase_of(name@),
            forall|j: int| 0 <= j < k ==> find_sub(v@, #[trigger] pv[j]) is None,
        decreases ps@.len() - k,
    {
        let p = to_chars(ps[k]);
        assert(p@ == pv[k as int]);
        if find_sub_in(&v, &p).is_some() {
            return true;
        }
        k = k + 1;
    }
    false
}

/// The first device carrying the system's own output.
pub open spec fn system_index(names: Seq<Option<Seq<char>>>) -> Option<int>
    decreases names.len(),
{
    if names.len() == 0 {
        None
    } else if (names[0] matches Some(n) && is_system_name(n)) {
        Some(0)
    } else {
        match system_index(names.drop_first()) {
            Some(i) => Some(i + 1),
            None => None,
        }
    }
}

/// Finds a device that carries the system's own output (the other side of
/// a call).
pub fn pick_system(names: &[Option<String>]) -> (r: Option<usize>)
    ensures
        match r {
            Some(i) => system_index(name_views(names@)) == Some(i as int),
            None => system_index(name_views(names@)) is None,
        },
{
    let ghost nv = name_views(names@);
    let mut i: usize = 0;
    assert(nv.skip(0) =~= nv);
    while i < names.len()
        invariant
            0 <= i <= names@.len(),
            nv == name_views(names@),
            system_index(nv) == match system_index(nv.skip(i as int)) {
                Some(k) => Some(k + i),
                None => None,
            },
        decreases names@.len() - i,
    {
        assert(nv.skip(i as int)[0] == nv[i as int]);
        assert(nv.skip(i as int).drop_first() =~= nv.skip(i + 1));
        let hit = match &names[i] {
            Some(n) => matches_system(n.as_str()),
            None => false,
        };
        if hit {
            return Some(i);
        }
        i = i + 1;
    }
    assert(nv.skip(i as int).len() == 0);
    None
}

/// A source a recording captures.
#[derive(Debug, Clone, Copy, PartialEq, Eq, Structural)]
pub enum Source {
    Microphone,
    System,
}

/// The sources a recording captures, each with whether it drives the level
/// meter: the microphone (when wanted and found) first and primary, then
/// the system output (when wanted and found), primary only without a
/// microphone.
pub open spec fn capture_plan_spec(mic: bool, system: bool) -> Seq<(Source, bool)> {
    (if mic {
        seq![(Source::Microphone, true)]
    } else {
        seq![]
    }) + (if system {
        seq![(Source::System, !mic)]
    } else {
        seq![]
    })
}

/// The sources to capture, or the message shown when there are none.
/// `mic` and `system` tell whether each source is wanted and has a device.
pub fn capture_plan(mic: bool, system: bool) -> (r: Result<Vec<(Source, bool)>, String>)
    ensures
        match r {
            Ok(v) => v@ == capture_plan_spec(mic, system) && v@.len() > 0,
            Err(e) => !mic && !system && e@
                == "No audio input available. Enable a microphone or a system-audio device."@,
        },
{
    let mut v: Vec<(Source, bool)> = Vec::new();
    if mic {
        v.push((Source::Microphone, true));
    }
    if system {
        v.push((Source::System, !mic));
    }
    if v.len() == 0 {
        return Err(
            String::from_str("No audio input available. Enable a microphone or a system-audio device."),
        );
    }
    assert(v@ =~= capture_plan_spec(mic, system));
    Ok(v)
}

/// Exactly one source drives the level meter whenever something is
/// captured.
pub proof fn law_one_primary(mic: bool, system: bool)
    requires
        mic || system,
    ensures
        capture_plan_spec(mic, system).filter(|s: (Source, bool)| s.1).len() == 1,
{
    let p = capture_plan_spec(mic, system);
    reveal_with_fuel(Seq::filter, 3);
    if mic && system {
        assert(p =~= seq![(Source::Microphone, true), (Source::System, false)]);
        assert(p.drop_last() =~= seq![(Source::Microphone, true)]);
        assert(p.drop_last().drop_last() =~= Seq::<(Source, bool)>::empty());
    } else if mic {
        assert(p =~= seq![(Source::Microphone, true)]);
        assert(p.drop_last() =~= Seq::<(Source, bool)>::empty());
    } else {
        assert(p =~= seq![(Source::System, true)]);
        assert(p.drop_last() =~= Seq::<(Source, bool)>::empty());
    }
}

} // verus!
