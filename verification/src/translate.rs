//! Per-event key-translation data.
//!
//! Translating a virtual key to a hardware scancode or to the character it
//! produces under a keyboard layout is an operating-system query. The caller
//! performs those queries once per event and hands the results in as a
//! translation cache of plain values; everything that reads the cache is
//! verified against the lookup functions below.
use vstd::prelude::*;

verus! {

use crate::keys::VIRTUAL_KEY;

/// What the operating system reports about one virtual key: its hardware
/// scancode (0 when unmapped), the character it produces in the system
/// default layout, and the character it produces in the layout of the
/// foreground window's input thread (`None` when it produces none).
pub struct KeyPressed {
    pub scan_code: u32,
    pub vk: VIRTUAL_KEY,
    pub unicode: Option<String>,
    pub localized_unicode: Option<String>,
}

/// The mathematical value of a [`KeyPressed`].
pub struct KeyPressedView {
    pub scan_code: u32,
    pub vk: u32,
    pub unicode: Option<Seq<char>>,
    pub localized_unicode: Option<Seq<char>>,
}

impl View for KeyPressed {
    type V = KeyPressedView;

    open spec fn view(&self) -> KeyPressedView {
        KeyPressedView {
            scan_code: self.scan_code,
            vk: self.vk,
            unicode: match &self.unicode {
                Some(s) => Some(s@),
                None => None,
            },
            localized_unicode: match &self.localized_unicode {
                Some(s) => Some(s@),
                None => None,
            },
        }
    }
}

impl DeepView for KeyPressed {
    type V = KeyPressedView;

    open spec fn deep_view(&self) -> KeyPressedView {
        self.view()
    }
}

impl KeyPressed {
    /// Builds the record for one key from the key, its scancode, and the
    /// characters the two layouts produce for it.
    pub fn from_scan_and_code(
        vk: VIRTUAL_KEY,
        scan: u32,
        unicode: Option<String>,
        localized_unicode: Option<String>,
    ) -> (r: Self)
        ensures
            r@.vk == vk,
            r@.scan_code == scan,
            r@.unicode == match unicode {
                Some(s) => Some::<Seq<char>>(s@),
                None => None::<Seq<char>>,
            },
            r@.localized_unicode == match localized_unicode {
                Some(s) => Some::<Seq<char>>(s@),
                None => None::<Seq<char>>,
            },
    {
        Self { scan_code: scan, vk, unicode, localized_unicode }
    }
}

/// The scancode the cache gives for a key: the first entry for the key, or 0
/// (unmapped) when the cache holds none.
pub open spec fn lookup_scan(t: Seq<KeyPressedView>, vk: u32) -> u32
    decreases t.len(),
{
    if t.len() == 0 {
        0u32
    } else if t[0].vk == vk {
        t[0].scan_code
    } else {
        lookup_scan(t.drop_first(), vk)
    }
}

/// The localized character the cache gives for a key: the first entry for
/// the key, or `None` when the cache holds none.
pub open spec fn lookup_localized(t: Seq<KeyPressedView>, vk: u32) -> Option<Seq<char>>
    decreases t.len(),
{
    if t.len() == 0 {
        None
    } else if t[0].vk == vk {
        t[0].localized_unicode
    } else {
        lookup_localized(t.drop_first(), vk)
    }
}

/// A cache of translation records, typically one per held key, gathered by
/// the caller before an event is processed.
pub struct TranslationCache {
    pub entries: Vec<KeyPressed>,
}

impl View for TranslationCache {
    type V = Seq<KeyPressedView>;

    open spec fn view(&self) -> Seq<KeyPressedView> {
        self.entries.deep_view()
    }
}

impl TranslationCache {
    /// An empty cache: every key is unmapped.
    pub fn new() -> (r: Self)
        ensures
            r@ =~= Seq::<KeyPressedView>::empty(),
    {
        TranslationCache { entries: Vec::new() }
    }

    /// Appends one key's translation record.
    pub fn push(&mut self, entry: KeyPressed)
        ensures
            final(self)@ =~= old(self)@.push(entry@),
    {
        self.entries.push(entry);
    }

    /// The scancode for a key, 0 when the cache holds none.
    pub fn scancode_for(&self, vk: u32) -> (r: u32)
        ensures
            r == lookup_scan(self@, vk),
    {
        let n = self.entries.len();
        proof {
            assert(self@.skip(0) =~= self@);
        }
        for i in 0..n
            invariant
                n == self.entries.len(),
                lookup_scan(self@.skip(i as int), vk) == lookup_scan(self@, vk),
        {
            proof {
                assert(self@.skip(i as int).drop_first() =~= self@.skip(i + 1));
                assert(self@.skip(i as int)[0] == self@[i as int]);
            }
            if self.entries[i].vk == vk {
                return self.entries[i].scan_code;
            }
        }
        proof {
            assert(self@.skip(n as int) =~= Seq::<KeyPressedView>::empty());
        }
        0
    }

    /// The localized character for a key, `None` when the cache holds none.
    pub fn localized_for(&self, vk: u32) -> (r: Option<&String>)
        ensures
            match r {
                Some(s) => lookup_localized(self@, vk) == Some(s@),
                None => lookup_localized(self@, vk) is None,
            },
    {
        let n = self.entries.len();
        proof {
            assert(self@.skip(0) =~= self@);
        }
        for i in 0..n
            invariant
                n == self.entries.len(),
                lookup_localized(self@.skip(i as int), vk) == lookup_localized(self@, vk),
        {
            proof {
                assert(self@.skip(i as int).drop_first() =~= self@.skip(i + 1));
                assert(self@.skip(i as int)[0] == self@[i as int]);
            }
            if self.entries[i].vk == vk {
                return match &self.entries[i].localized_unicode {
                    Some(s) => Some(s),
                    None => None,
                };
            }
        }
        proof {
            assert(self@.skip(n as int) =~= Seq::<KeyPressedView>::empty());
        }
        None
    }
}

} // verus!
