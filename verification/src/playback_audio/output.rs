//! Which card, and in what format.
use crate::chars::{put_text, same_text, string_of};
use crate::decimal::{decimal, put_decimal};
use crate::proxy::encode::names;
use vstd::prelude::*;

verus! {

/// The device to fall back on in this place, best first, when the host default
/// will not open. All of them are ALSA names, and on hosts that have no such
/// devices there is simply nothing of the name.
pub open spec fn fallback_in(k: int) -> Seq<char> {
    if k == 0 {
        "pipewire"@
    } else if k == 1 {
        "pulse"@
    } else {
        "sysdefault"@
    }
}

/// How many there are.
pub const FALLBACKS: usize = 3;

fn fallback(k: usize) -> (r: &'static str)
    ensures
        r@ == fallback_in(k as int),
{
    if k == 0 {
        "pipewire"
    } else if k == 1 {
        "pulse"
    } else {
        "sysdefault"
    }
}

/// The places of the first `n` devices that have this name.
pub open spec fn named(devices: Seq<Seq<char>>, name: Seq<char>, n: int) -> Seq<usize>
    decreases n,
{
    if n <= 0 {
        Seq::empty()
    } else if devices[n - 1] == name {
        named(devices, name, n - 1).push((n - 1) as usize)
    } else {
        named(devices, name, n - 1)
    }
}

/// The places of the devices to fall back on first `k` of, best first.
pub open spec fn fallbacks_to(devices: Seq<Seq<char>>, k: int) -> Seq<usize>
    decreases k,
{
    if k <= 0 {
        Seq::empty()
    } else {
        fallbacks_to(devices, k - 1) + named(devices, fallback_in(k - 1), devices.len() as int)
    }
}

/// The places of the devices worth trying once the host default would not
/// open, best first, given what devices there are.
pub fn fallback_order(devices: &[String]) -> (out: Vec<usize>)
    ensures
        out@ == fallbacks_to(names(devices@), FALLBACKS as int),
{
    let ghost all = names(devices@);
    let mut out: Vec<usize> = Vec::new();
    let mut k: usize = 0;
    while k < FALLBACKS
        invariant
            k <= FALLBACKS,
            all == names(devices@),
            out@ =~= fallbacks_to(all, k as int),
        decreases FALLBACKS - k,
    {
        let name: &'static str = fallback(k);
        let ghost before = out@;
        let mut i: usize = 0;
        while i < devices.len()
            invariant
                i <= devices@.len(),
                all == names(devices@),
                out@ =~= before + named(all, name@, i as int),
            decreases devices@.len() - i,
        {
            assert(all[i as int] == devices@[i as int]@);
            if same_text(devices[i].as_str(), name) {
                out.push(i);
            }
            i += 1;
        }
        assert(all.len() == devices@.len());
        k += 1;
    }
    out
}

/// About twenty milliseconds of frames.
///
/// Left to the host, the period is a question that on Linux goes through the
/// ALSA-over-PulseAudio plugin, and the answer it gives sends the poll loop
/// into a busy spin. Picking a period sidesteps the answer entirely; this is
/// short enough nobody previewing a cut would notice the added latency.
pub fn fixed_period(rate: u32) -> (r: u32)
    ensures
        r == (if rate / 50 > 256 {
            rate / 50
        } else {
            256
        }),
{
    if rate / 50 > 256 {
        rate / 50
    } else {
        256
    }
}

/// A configuration to offer a device; `None` for the period leaves it to the
/// host.
#[derive(Debug, Clone, Copy, PartialEq, Eq, Structural)]
pub struct Config {
    pub rate: u32,
    pub channels: u16,
    pub period: Option<u32>,
}

/// A configuration with a period of its own.
pub open spec fn fixed_for(rate: u32, channels: u16) -> Config {
    Config {
        rate,
        channels,
        period: Some(
            if rate / 50 > 256 {
                (rate / 50) as u32
            } else {
                256
            },
        ),
    }
}

/// A configuration that leaves the period to the host.
pub open spec fn free_for(rate: u32, channels: u16) -> Config {
    Config { rate, channels, period: None }
}

/// The configurations worth offering a device, best first, given what is
/// wanted and what the device mixes at.
///
/// The source's own rate and layout come first, playing them untouched being
/// one conversion fewer. **Windows does not take them**: WASAPI's shared mode
/// mixes every application at one format, so that format is offered next. The
/// last candidates give up the fixed period: a card may refuse an exact size
/// it cannot take.
pub fn candidates(want: (u32, u16), mixed: Option<(u32, u16)>) -> (out: Vec<Config>)
    ensures
        match mixed {
            Some(m) => if m.0 != want.0 || m.1 != want.1 {
                out@ == seq![
                    fixed_for(want.0, want.1),
                    fixed_for(m.0, m.1),
                    free_for(want.0, want.1),
                    free_for(m.0, m.1),
                ]
            } else {
                out@ == seq![fixed_for(want.0, want.1), free_for(want.0, want.1)]
            },
            None => out@ == seq![fixed_for(want.0, want.1), free_for(want.0, want.1)],
        },
{
    let mut out: Vec<Config> = Vec::new();
    let (rate, channels): (u32, u16) = want;
    out.push(Config { rate, channels, period: Some(fixed_period(rate)) });
    let mut other: Option<(u32, u16)> = None;
    if let Some((r, c)) = mixed {
        if r != rate || c != channels {
            out.push(Config { rate: r, channels: c, period: Some(fixed_period(r)) });
            other = Some((r, c));
        }
    }
    out.push(Config { rate, channels, period: None });
    if let Some((r, c)) = other {
        out.push(Config { rate: r, channels: c, period: None });
    }
    out
}

/// What is said where no device would open: what was asked for and what was
/// tried, since the error handed back describes neither; or that there is no
/// device at all.
pub fn cannot_open(want: (u32, u16), why: Option<&str>) -> (r: String)
    ensures
        r@ == (match why {
            Some(e) => "cannot open audio output for "@ + decimal(want.0 as nat) + "Hz/"@ + decimal(
                want.1 as nat,
            ) + "ch (tried default, pipewire, pulse, sysdefault): "@ + e@,
            None => "no audio output device"@,
        }),
{
    let mut out: Vec<char> = Vec::new();
    match why {
        Some(e) => {
            put_text(&mut out, "cannot open audio output for ");
            put_decimal(&mut out, want.0 as u64);
            put_text(&mut out, "Hz/");
            put_decimal(&mut out, want.1 as u64);
            put_text(&mut out, "ch (tried default, pipewire, pulse, sysdefault): ");
            put_text(&mut out, e);
            assert(out@ =~= "cannot open audio output for "@ + decimal(want.0 as nat) + "Hz/"@
                + decimal(want.1 as nat) + "ch (tried default, pipewire, pulse, sysdefault): "@
                + e@);
        },
        None => {
            put_text(&mut out, "no audio output device");
            assert(out@ =~= "no audio output device"@);
        },
    }
    string_of(out.as_slice())
}

} // verus!
