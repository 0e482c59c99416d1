//! Explicit settings of a process; what they leave open is read from elsewhere.
use vstd::prelude::*;

verus! {

/// Explicit values; nothing defers to the setting's default source.
#[derive(Clone, Copy, PartialEq, Eq, Structural, Debug)]
pub struct Overrides {
    pub max_seq: Option<usize>,
    pub prefix_cache_bytes: Option<u64>,
    pub read: Option<bool>,
    pub prefetch: Option<bool>,
    pub simd: Option<bool>,
    pub autopin: Option<bool>,
    pub pin_bytes: Option<u64>,
}

impl Overrides {
    /// Every value left open.
    pub open spec fn open() -> Overrides {
        Overrides {
            max_seq: None,
            prefix_cache_bytes: None,
            read: None,
            prefetch: None,
            simd: None,
            autopin: None,
            pin_bytes: None,
        }
    }
}

impl Default for Overrides {
    fn default() -> (o: Overrides)
        ensures
            o == Overrides::open(),
    {
        Overrides {
            max_seq: None,
            prefix_cache_bytes: None,
            read: None,
            prefetch: None,
            simd: None,
            autopin: None,
            pin_bytes: None,
        }
    }
}

/// The settings of a process, seeded at most once.
pub struct Knobs {
    pub seeded: Option<Overrides>,
}

impl Knobs {
    pub fn new() -> (k: Knobs)
        ensures
            k.seeded is None,
    {
        Knobs { seeded: None }
    }
}

/// Seeds the settings. The first call wins; later ones change nothing.
pub fn seed(k: &mut Knobs, o: Overrides) -> (first: bool)
    ensures
        first == (old(k).seeded is None),
        final(k).seeded == if first {
            Some(o)
        } else {
            old(k).seeded
        },
{
    if k.seeded.is_some() {
        return false;
    }
    k.seeded = Some(o);
    true
}

/// The settings: those that were seeded, else every value open.
pub fn get(k: &Knobs) -> (o: Overrides)
    ensures
        o == match k.seeded {
            Some(s) => s,
            None => Overrides::open(),
        },
{
    match k.seeded {
        Some(s) => s,
        None => Overrides::default(),
    }
}

/// Open overrides decide nothing.
pub proof fn law_open_overrides_decide_nothing()
    ensures
        ({
            let o = Overrides::open();
            o.max_seq is None && o.prefix_cache_bytes is None && o.read is None && o.prefetch is None
                && o.simd is None && o.autopin is None && o.pin_bytes is None
        }),
{
}

} // verus!
