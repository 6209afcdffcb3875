//! The predefined keyboard shortcuts.

use vstd::prelude::*;
use crate::text::to_owned_string;

verus! {

/// The modifier keys of a shortcut.
#[derive(Debug, Clone, Copy, Default, PartialEq, Eq, Structural)]
pub struct Modifiers {
    pub ctrl: bool,
    pub alt: bool,
    pub shift: bool,
    pub meta: bool,
}

/// A keyboard shortcut: what it does, its modifiers and its key.
#[derive(Debug)]
pub struct HotkeyDef {
    pub id: String,
    pub modifiers: Modifiers,
    pub key: String,
}

/// A shortcut, as mathematical values.
pub struct HotkeyView {
    pub id: Seq<char>,
    pub modifiers: Modifiers,
    pub key: Seq<char>,
}

impl View for HotkeyDef {
    type V = HotkeyView;

    open spec fn view(&self) -> HotkeyView {
        HotkeyView { id: self.id@, modifiers: self.modifiers, key: self.key@ }
    }
}

impl Clone for HotkeyDef {
    fn clone(&self) -> (res: Self)
        ensures
            res@ == self@,
    {
        HotkeyDef { id: self.id.clone(), modifiers: self.modifiers, key: self.key.clone() }
    }
}

/// Ctrl+Shift.
pub open spec fn ctrl_shift() -> Modifiers {
    Modifiers { ctrl: true, alt: false, shift: true, meta: false }
}

/// The shortcuts defined at start: Ctrl+Shift+H switches the selected
/// entry, Ctrl+Shift+S shows or hides the main window.
pub open spec fn predefined_hotkeys() -> Seq<HotkeyView> {
    seq![
        HotkeyView { id: "toggle_hosts"@, modifiers: ctrl_shift(), key: "H"@ },
        HotkeyView { id: "toggle_window"@, modifiers: ctrl_shift(), key: "S"@ },
    ]
}

/// No two shortcuts have the same id.
pub open spec fn ids_unique(defs: Seq<HotkeyView>) -> bool {
    forall|i: int, j: int| 0 <= i < j < defs.len() ==> #[trigger] defs[i].id != #[trigger] defs[j].id
}

/// The shortcuts of the application, keyed by their ids: no id occurs
/// twice.
///
/// They are held in a vector under that invariant rather than in a
/// `HashMap<String, HotkeyDef>`: vstd's contracts for `HashMap` hold only
/// for key types known to obey its key model, which `String` is not, so
/// nothing could be proved of a map keyed by text; and the vector gives
/// the definitions in the order they were made, where a map would hand
/// them out in hash order.
pub struct HotkeyManager {
    shortcuts: Vec<HotkeyDef>,
}

impl HotkeyManager {
    /// The shortcuts, in the order they were defined.
    pub closed spec fn definitions(&self) -> Seq<HotkeyView> {
        self.shortcuts@.map_values(|d: HotkeyDef| d@)
    }

    #[verifier::type_invariant]
    spec fn keyed_by_id(self) -> bool {
        ids_unique(self.definitions())
    }

    /// A manager with the predefined shortcuts.
    pub fn new() -> (res: Self)
        ensures
            res.definitions() == predefined_hotkeys(),
            ids_unique(res.definitions()),
    {
        proof {
            reveal_strlit("toggle_hosts");
            reveal_strlit("toggle_window");
        }
        let mut shortcuts: Vec<HotkeyDef> = Vec::new();
        shortcuts.push(HotkeyDef {
            id: to_owned_string("toggle_hosts"),
            modifiers: Modifiers { ctrl: true, alt: false, shift: true, meta: false },
            key: to_owned_string("H"),
        });
        shortcuts.push(HotkeyDef {
            id: to_owned_string("toggle_window"),
            modifiers: Modifiers { ctrl: true, alt: false, shift: true, meta: false },
            key: to_owned_string("S"),
        });
        assert(shortcuts@.map_values(|d: HotkeyDef| d@) =~= predefined_hotkeys());
        assert("toggle_hosts"@.len() != "toggle_window"@.len());
        assert(ids_unique(predefined_hotkeys())) by {
            let p = predefined_hotkeys();
            assert(p[0].id != p[1].id);
        }
        let res = HotkeyManager { shortcuts };
        res
    }

    /// Registers the shortcuts with the system. No shortcut plugin is
    /// wired in, so this changes nothing.
    pub fn register_all(&self) {
    }

    /// Forgets all shortcuts.
    pub fn unregister_all(&mut self)
        ensures
            final(self).definitions() == Seq::<HotkeyView>::empty(),
            ids_unique(final(self).definitions()),
    {
        self.shortcuts = Vec::new();
        assert(self.definitions() =~= Seq::<HotkeyView>::empty());
    }

    /// The defined shortcuts, for the user interface.
    pub fn get_definitions(&self) -> (res: Vec<HotkeyDef>)
        ensures
            res@.map_values(|d: HotkeyDef| d@) == self.definitions(),
            ids_unique(res@.map_values(|d: HotkeyDef| d@)),
    {
        proof { use_type_invariant(self); }
        let mut res: Vec<HotkeyDef> = Vec::new();
        let n = self.shortcuts.len();
        let mut k: usize = 0;
        while k < n
            invariant
                n == self.shortcuts@.len(),
                k <= n,
                res@.map_values(|d: HotkeyDef| d@) == self.shortcuts@.take(k as int).map_values(|d: HotkeyDef| d@),
            decreases n - k,
        {
            let ghost before = res@;
            let d = self.shortcuts[k].clone();
            res.push(d);
            assert(res@.map_values(|d: HotkeyDef| d@) =~= before.map_values(|d: HotkeyDef| d@).push(d@));
            assert(self.shortcuts@.take(k + 1) =~= self.shortcuts@.take(k as int).push(self.shortcuts@[k as int]));
            assert(res@.map_values(|d: HotkeyDef| d@) =~= self.shortcuts@.take(k + 1).map_values(|d: HotkeyDef| d@));
            k = k + 1;
        }
        assert(self.shortcuts@.take(n as int) =~= self.shortcuts@);
        res
    }
}

impl Default for HotkeyManager {
    fn default() -> (res: Self)
        ensures
            res.definitions() == predefined_hotkeys(),
    {
        Self::new()
    }
}

} // verus!
