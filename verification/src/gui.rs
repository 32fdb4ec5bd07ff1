//! Text overlays of the visualizer: the fixed global panel, the per-particle
//! mini-texts, and the `Gui` that owns them together with the pause state.

use crate::config::{DEF_GUI_FONT_SZ, DEF_GUI_TXT_MAX_WIDTH, GUI_MINITEXT_FONT_SZ};
use vstd::prelude::*;
use vstd::string::StringExecFns;

verus! {

/// A recoverable failure of a text-overlay operation. None of these interrupt
/// the frame loop; they report a rejected request and leave state unchanged.
#[derive(Clone, Copy, PartialEq, Eq, Structural, Debug)]
pub enum GuiError {
    /// A field with the requested name already exists.
    DuplicateField,
    /// No field with the requested name exists.
    UnknownField,
    /// No particle with the requested identity is currently live.
    ParticleNotFound,
    /// A mini-text already tracks the requested identity.
    DuplicateTracking,
}

/// The abstract value of a field list: name and value of each field, in
/// display order, as sequences of characters.
pub type FieldsView = Seq<(Seq<char>, Seq<char>)>;

/// Whether some field of `fields` is named `name`.
pub open spec fn has_field(fields: FieldsView, name: Seq<char>) -> bool {
    exists|i: int| 0 <= i < fields.len() && fields[i].0 == name
}

/// Index of the first field of `fields` named `name`; meaningful only when
/// `has_field(fields, name)` holds.
pub open spec fn field_index(fields: FieldsView, name: Seq<char>) -> int
    decreases fields.len(),
{
    if fields.len() == 0 {
        0
    } else if fields[0].0 == name {
        0
    } else {
        1 + field_index(fields.drop_first(), name)
    }
}

/// Field names are pairwise distinct.
pub open spec fn fields_unique(fields: FieldsView) -> bool {
    forall|i: int, j: int|
        0 <= i < j < fields.len() ==> fields[i].0 != fields[j].0
}

/// `field_index` points at the first field with the given name.
pub proof fn lemma_field_index(fields: FieldsView, name: Seq<char>)
    requires
        has_field(fields, name),
    ensures
        0 <= field_index(fields, name) < fields.len(),
        fields[field_index(fields, name)].0 == name,
        forall|j: int| 0 <= j < field_index(fields, name) ==> fields[j].0 != name,
    decreases fields.len(),
{
    if fields.len() == 0 {
    } else if fields[0].0 == name {
    } else {
        let rest = fields.drop_first();
        assert(has_field(rest, name)) by {
            let i = choose|i: int| 0 <= i < fields.len() && fields[i].0 == name;
            assert(rest[i - 1] == fields[i]);
        }
        lemma_field_index(rest, name);
        assert(forall|j: int| 0 <= j < field_index(fields, name) ==> fields[j].0 != name) by {
            assert(forall|j: int|
                1 <= j < field_index(fields, name) ==> fields[j] == rest[j - 1]);
        }
    }
}

/// The fixed-position key/value panel, always visible, with its fields in
/// registration order.
pub struct GlobalText {
    /// The registered fields, in display order.
    pub fields: Vec<(String, String)>,
    /// A rendered line measuring at least this many pixels is truncated.
    pub max_width: u32,
    /// Font size of the rendered lines.
    pub font_sz: u16,
}

impl View for GlobalText {
    type V = FieldsView;

    open spec fn view(&self) -> FieldsView {
        self.fields.deep_view()
    }
}

impl Default for GlobalText {
    /// An empty panel with the default width limit and font size.
    fn default() -> (r: Self)
        ensures
            r@ =~= Seq::<(Seq<char>, Seq<char>)>::empty(),
            r.max_width == DEF_GUI_TXT_MAX_WIDTH,
            r.font_sz == DEF_GUI_FONT_SZ,
    {
        GlobalText {
            fields: Vec::new(),
            max_width: DEF_GUI_TXT_MAX_WIDTH,
            font_sz: DEF_GUI_FONT_SZ,
        }
    }
}

impl GlobalText {
    /// A panel with the given field names, each with an empty value.
    pub fn new(fields: &[String]) -> (r: Self)
        ensures
            r@.len() == fields@.len(),
            forall|i: int| 0 <= i < fields@.len() ==>
                #[trigger] r@[i] == (fields@[i]@, Seq::<char>::empty()),
            r.max_width == DEF_GUI_TXT_MAX_WIDTH,
            r.font_sz == DEF_GUI_FONT_SZ,
    {
        let mut v: Vec<(String, String)> = Vec::new();
        let mut i: usize = 0;
        while i < fields.len()
            invariant
                i <= fields@.len(),
                v@.len() == i as int,
                forall|j: int| 0 <= j < i ==> (#[trigger] v@[j]).0@ == fields@[j]@
                    && v@[j].1@ == Seq::<char>::empty(),
            decreases fields@.len() - i,
        {
            v.push((fields[i].clone(), String::new()));
            i = i + 1;
        }
        GlobalText {
            fields: v,
            max_width: DEF_GUI_TXT_MAX_WIDTH,
            font_sz: DEF_GUI_FONT_SZ,
        }
    }

    /// Registers a new field at the end of the panel. A duplicate name is
    /// rejected and the panel is left unchanged.
    pub fn create_field(&mut self, field: &str, value: &str) -> (r: Result<(), GuiError>)
        ensures
            has_field(old(self)@, field@) ==> {
                &&& r == Err::<(), GuiError>(GuiError::DuplicateField)
                &&& *final(self) == *old(self)
            },
            !has_field(old(self)@, field@) ==> {
                &&& r == Ok::<(), GuiError>(())
                &&& final(self)@ =~= old(self)@.push((field@, value@))
                &&& final(self).max_width == old(self).max_width
                &&& final(self).font_sz == old(self).font_sz
            },
            fields_unique(old(self)@) ==> fields_unique(final(self)@),
    {
        let field_s = String::from_str(field);
        let n = self.fields.len();
        let mut i: usize = 0;
        while i < n
            invariant
                n == self.fields@.len(),
                i <= n,
                field_s@ == field@,
                forall|j: int| 0 <= j < i ==> #[trigger] self@[j].0 != field@,
            decreases n - i,
        {
            if self.fields[i].0 == field_s {
                assert(self@[i as int].0 == field@);
                return Err(GuiError::DuplicateField);
            }
            assert(self@[i as int].0 != field@);
            i = i + 1;
        }
        self.fields.push((field_s, String::from_str(value)));
        proof {
            let pre = old(self)@;
            let post = self@;
            assert(post =~= pre.push((field@, value@)));
            if fields_unique(pre) {
                assert forall|a: int, b: int|
                    0 <= a < b < post.len() implies post[a].0 != post[b].0 by {
                    if b == post.len() - 1 {
                        assert(pre[a].0 != field@);
                    }
                }
            }
        }
        Ok(())
    }

    /// Replaces the value of the named field. An unknown name is rejected and
    /// the panel is left unchanged.
    pub fn update_field(&mut self, field: &str, value: &str) -> (r: Result<(), GuiError>)
        ensures
            !has_field(old(self)@, field@) ==> {
                &&& r == Err::<(), GuiError>(GuiError::UnknownField)
                &&& *final(self) == *old(self)
            },
            has_field(old(self)@, field@) ==> {
                &&& r == Ok::<(), GuiError>(())
                &&& final(self)@ =~= old(self)@.update(
                    field_index(old(self)@, field@),
                    (field@, value@),
                )
                &&& final(self).max_width == old(self).max_width
                &&& final(self).font_sz == old(self).font_sz
            },
    {
        let field_s = String::from_str(field);
        let n = self.fields.len();
        let mut i: usize = 0;
        while i < n
            invariant
                *self == *old(self),
                n == self.fields@.len(),
                i <= n,
                field_s@ == field@,
                forall|j: int| 0 <= j < i ==> #[trigger] self@[j].0 != field@,
            decreases n - i,
        {
            if self.fields[i].0 == field_s {
                assert(self@[i as int].0 == field@);
                proof {
                    lemma_field_index(self@, field@);
                    assert(i as int == field_index(self@, field@));
                }
                let name = self.fields[i].0.clone();
                self.fields.set(i, (name, String::from_str(value)));
                return Ok(());
            }
            assert(self@[i as int].0 != field@);
            i = i + 1;
        }
        Err(GuiError::UnknownField)
    }

    /// The displayed lines, one `"name: value"` line per field in
    /// registration order.
    pub fn render_lines(&self) -> (r: Vec<String>)
        ensures
            r@.len() == self@.len(),
            forall|i: int| 0 <= i < self@.len() ==> (#[trigger] r@[i])@ == self@[i].0 + ": "@
                + self@[i].1,
    {
        render_field_lines(&self.fields)
    }
}

/// One `"name: value"` line per field, in order.
fn render_field_lines(fields: &Vec<(String, String)>) -> (r: Vec<String>)
    ensures
        r@.len() == fields.deep_view().len(),
        forall|i: int| 0 <= i < fields.deep_view().len() ==> (#[trigger] r@[i])@
            == fields.deep_view()[i].0 + ": "@ + fields.deep_view()[i].1,
{
    let mut out: Vec<String> = Vec::new();
    let n = fields.len();
    let mut i: usize = 0;
    while i < n
        invariant
            n == fields@.len(),
            i <= n,
            out@.len() == i as int,
            forall|j: int| 0 <= j < i ==> (#[trigger] out@[j])@ == fields.deep_view()[j].0 + ": "@
                + fields.deep_view()[j].1,
        decreases n - i,
    {
        let line = crate::text::render_line(fields[i].0.as_str(), fields[i].1.as_str());
        out.push(line);
        i = i + 1;
    }
    out
}

/// Whether some particle in `ids` carries the identity `uid`.
pub open spec fn has_uid(ids: Seq<u64>, uid: u64) -> bool {
    exists|i: int| 0 <= i < ids.len() && ids[i] == uid
}

/// Index of the first particle of `ids` with identity `uid`; meaningful only
/// when `has_uid(ids, uid)` holds.
pub open spec fn uid_index(ids: Seq<u64>, uid: u64) -> int
    decreases ids.len(),
{
    if ids.len() == 0 {
        0
    } else if ids[0] == uid {
        0
    } else {
        1 + uid_index(ids.drop_first(), uid)
    }
}

/// `uid_index` points at the first particle with the given identity.
pub proof fn lemma_uid_index(ids: Seq<u64>, uid: u64)
    requires
        has_uid(ids, uid),
    ensures
        0 <= uid_index(ids, uid) < ids.len(),
        ids[uid_index(ids, uid)] == uid,
        forall|j: int| 0 <= j < uid_index(ids, uid) ==> ids[j] != uid,
    decreases ids.len(),
{
    if ids.len() == 0 {
    } else if ids[0] == uid {
    } else {
        let rest = ids.drop_first();
        assert(has_uid(rest, uid)) by {
            let i = choose|i: int| 0 <= i < ids.len() && ids[i] == uid;
            assert(rest[i - 1] == ids[i]);
        }
        lemma_uid_index(rest, uid);
        assert(forall|j: int| 0 <= j < uid_index(ids, uid) ==> ids[j] != uid) by {
            assert(forall|j: int| 1 <= j < uid_index(ids, uid) ==> ids[j] == rest[j - 1]);
        }
    }
}

/// A floating text label bound to one tracked particle, displayed beside it.
///
/// The label follows the particle by its stable identity; the cached index
/// into the particle sequence is only a hint, refreshed by a linear search
/// when it goes stale. Once the particle disappears the label disables
/// itself, and the owning [`Gui`] purges it before the next draw pass.
pub struct MiniText {
    /// The displayed fields, in registration order.
    pub fields: Vec<(String, String)>,
    /// The stable identity of the tracked particle.
    pub tracked_uid: u64,
    /// Last known index of the tracked particle; a hint, not a truth source.
    pub tracked_index: usize,
    /// Set once the tracked particle is gone; a disabled label must be purged
    /// and never drawn again.
    pub disabled: bool,
}

impl View for MiniText {
    type V = FieldsView;

    open spec fn view(&self) -> FieldsView {
        self.fields.deep_view()
    }
}

/// Whether the cached index of `mt` still points at its tracked particle.
pub open spec fn cache_ok(mt: MiniText, ids: Seq<u64>) -> bool {
    mt.tracked_index < ids.len() && ids[mt.tracked_index as int] == mt.tracked_uid
}

impl MiniText {
    /// Tries to create a label tracking the particle with identity
    /// `particle_uid`, given the identities of the live particles in order.
    /// Fails if no live particle carries that identity. All named fields
    /// start out with an empty value.
    pub fn try_new(fields: &[&str], particle_uid: u64, particle_ids: &[u64]) -> (r: Option<Self>)
        ensures
            match r {
                Option::Some(mt) => {
                    &&& has_uid(particle_ids@, particle_uid)
                    &&& mt.tracked_uid == particle_uid
                    &&& mt.tracked_index == uid_index(particle_ids@, particle_uid)
                    &&& !mt.disabled
                    &&& mt@.len() == fields@.len()
                    &&& forall|i: int| 0 <= i < fields@.len() ==> (#[trigger] mt@[i]).0
                        == fields@[i]@ && mt@[i].1 == Seq::<char>::empty()
                },
                Option::None => !has_uid(particle_ids@, particle_uid),
            },
    {
        let mut fvec: Vec<(String, String)> = Vec::new();
        let mut i: usize = 0;
        while i < fields.len()
            invariant
                i <= fields@.len(),
                fvec@.len() == i as int,
                forall|j: int| 0 <= j < i ==> (#[trigger] fvec@[j]).0@ == fields@[j]@
                    && fvec@[j].1@ == Seq::<char>::empty(),
            decreases fields@.len() - i,
        {
            fvec.push((String::from_str(fields[i]), String::new()));
            i = i + 1;
        }
        let n = particle_ids.len();
        let mut k: usize = 0;
        while k < n
            invariant
                n == particle_ids@.len(),
                k <= n,
                fvec@.len() == fields@.len(),
                forall|j: int| 0 <= j < fields@.len() ==> (#[trigger] fvec@[j]).0@ == fields@[j]@
                    && fvec@[j].1@ == Seq::<char>::empty(),
                forall|j: int| 0 <= j < k ==> particle_ids@[j] != particle_uid,
            decreases n - k,
        {
            if particle_ids[k] == particle_uid {
                proof {
                    lemma_uid_index(particle_ids@, particle_uid);
                    assert(k as int == uid_index(particle_ids@, particle_uid));
                }
                return Some(
                    MiniText {
                        fields: fvec,
                        tracked_uid: particle_uid,
                        tracked_index: k,
                        disabled: false,
                    },
                );
            }
            k = k + 1;
        }
        None
    }

    /// Font size of a mini-text label.
    pub fn get_font_sz() -> (r: u16)
        ensures
            r == GUI_MINITEXT_FONT_SZ,
    {
        GUI_MINITEXT_FONT_SZ
    }

    /// Replaces the value of the named field. An unknown name is rejected and
    /// the label is left unchanged.
    pub fn update_field(&mut self, field: &str, new_value: &str) -> (r: Result<(), GuiError>)
        ensures
            !has_field(old(self)@, field@) ==> {
                &&& r == Err::<(), GuiError>(GuiError::UnknownField)
                &&& *final(self) == *old(self)
            },
            has_field(old(self)@, field@) ==> {
                &&& r == Ok::<(), GuiError>(())
                &&& final(self)@ =~= old(self)@.update(
                    field_index(old(self)@, field@),
                    (field@, new_value@),
                )
                &&& final(self).tracked_uid == old(self).tracked_uid
                &&& final(self).tracked_index == old(self).tracked_index
                &&& final(self).disabled == old(self).disabled
            },
    {
        let field_s = String::from_str(field);
        let n = self.fields.len();
        let mut i: usize = 0;
        while i < n
            invariant
                *self == *old(self),
                n == self.fields@.len(),
                i <= n,
                field_s@ == field@,
                forall|j: int| 0 <= j < i ==> #[trigger] self@[j].0 != field@,
            decreases n - i,
        {
            if self.fields[i].0 == field_s {
                assert(self@[i as int].0 == field@);
                proof {
                    lemma_field_index(self@, field@);
                    assert(i as int == field_index(self@, field@));
                }
                let name = self.fields[i].0.clone();
                self.fields.set(i, (name, String::from_str(new_value)));
                return Ok(());
            }
            assert(self@[i as int].0 != field@);
            i = i + 1;
        }
        Err(GuiError::UnknownField)
    }

    /// Finds where the tracked particle now lives in the particle sequence.
    ///
    /// The cached index is trusted while the particle at that index still
    /// carries the tracked identity; otherwise a linear search refreshes the
    /// cache. When the identity is gone from the sequence the label disables
    /// itself and reports failure; the caller must purge it and never call
    /// this again on it.
    pub fn resolve(&mut self, particle_ids: &[u64]) -> (r: Option<usize>)
        requires
            !old(self).disabled,
        ensures
            cache_ok(*old(self), particle_ids@) ==> {
                &&& r == Some(old(self).tracked_index)
                &&& *final(self) == *old(self)
            },
            !cache_ok(*old(self), particle_ids@) && has_uid(particle_ids@, old(self).tracked_uid)
                ==> {
                &&& r == Some(uid_index(particle_ids@, old(self).tracked_uid) as usize)
                &&& final(self).tracked_index == uid_index(particle_ids@, old(self).tracked_uid)
                &&& final(self).fields == old(self).fields
                &&& final(self).tracked_uid == old(self).tracked_uid
                &&& !final(self).disabled
            },
            !cache_ok(*old(self), particle_ids@) && !has_uid(particle_ids@, old(self).tracked_uid)
                ==> {
                &&& r == None::<usize>
                &&& final(self).disabled
                &&& final(self).fields == old(self).fields
                &&& final(self).tracked_uid == old(self).tracked_uid
                &&& final(self).tracked_index == old(self).tracked_index
            },
    {
        let n = particle_ids.len();
        if self.tracked_index < n && particle_ids[self.tracked_index] == self.tracked_uid {
            return Some(self.tracked_index);
        }
        let mut k: usize = 0;
        while k < n
            invariant
                *self == *old(self),
                !self.disabled,
                !cache_ok(*old(self), particle_ids@),
                n == particle_ids@.len(),
                k <= n,
                forall|j: int| 0 <= j < k ==> particle_ids@[j] != self.tracked_uid,
            decreases n - k,
        {
            if particle_ids[k] == self.tracked_uid {
                proof {
                    lemma_uid_index(particle_ids@, self.tracked_uid);
                    assert(k as int == uid_index(particle_ids@, self.tracked_uid));
                }
                self.tracked_index = k;
                return Some(k);
            }
            k = k + 1;
        }
        self.disabled = true;
        None
    }

    /// The displayed lines, one `"name: value"` line per field in
    /// registration order.
    pub fn render_lines(&self) -> (r: Vec<String>)
        ensures
            r@.len() == self@.len(),
            forall|i: int| 0 <= i < self@.len() ==> (#[trigger] r@[i])@ == self@[i].0 + ": "@
                + self@[i].1,
    {
        render_field_lines(&self.fields)
    }
}

/// The tracked identities of a collection of mini-texts, in order.
pub open spec fn uids_of(mts: Seq<MiniText>) -> Seq<u64> {
    mts.map_values(|m: MiniText| m.tracked_uid)
}

/// Tracked identities are pairwise distinct.
pub open spec fn minitexts_unique(mts: Seq<MiniText>) -> bool {
    forall|i: int, j: int|
        0 <= i < j < mts.len() ==> mts[i].tracked_uid != mts[j].tracked_uid
}

/// No mini-text is disabled.
pub open spec fn all_enabled(mts: Seq<MiniText>) -> bool {
    forall|i: int| 0 <= i < mts.len() ==> !(#[trigger] mts[i]).disabled
}

/// Whether the particle tracked by `mt` is present in `ids`.
pub open spec fn live(mt: MiniText, ids: Seq<u64>) -> bool {
    has_uid(ids, mt.tracked_uid)
}

/// Where the particle tracked by `mt` is found: at the cached index while
/// that still holds the tracked identity, otherwise at the identity's first
/// position. Meaningful only when `live(mt, ids)` holds or the cache is good.
pub open spec fn resolved_index(mt: MiniText, ids: Seq<u64>) -> int {
    if cache_ok(mt, ids) {
        mt.tracked_index as int
    } else {
        uid_index(ids, mt.tracked_uid)
    }
}

/// A live mini-text after one draw pass: same fields and identity, cache
/// refreshed, enabled.
pub open spec fn resolve_model(mt: MiniText, ids: Seq<u64>) -> MiniText {
    MiniText {
        fields: mt.fields,
        tracked_uid: mt.tracked_uid,
        tracked_index: resolved_index(mt, ids) as usize,
        disabled: false,
    }
}

/// The mini-texts left after one draw pass over particles `ids`: the live
/// ones in their original order with refreshed caches; the ones whose
/// particle is gone are purged.
pub open spec fn surviving(mts: Seq<MiniText>, ids: Seq<u64>) -> Seq<MiniText>
    decreases mts.len(),
{
    if mts.len() == 0 {
        Seq::empty()
    } else if live(mts[0], ids) {
        seq![resolve_model(mts[0], ids)] + surviving(mts.drop_first(), ids)
    } else {
        surviving(mts.drop_first(), ids)
    }
}

/// Where each surviving mini-text is drawn during one draw pass: the tracked
/// identity and the index of its particle, in mini-text order.
pub open spec fn placements(mts: Seq<MiniText>, ids: Seq<u64>) -> Seq<(u64, usize)>
    decreases mts.len(),
{
    if mts.len() == 0 {
        Seq::empty()
    } else if live(mts[0], ids) {
        seq![(mts[0].tracked_uid, resolved_index(mts[0], ids) as usize)] + placements(
            mts.drop_first(),
            ids,
        )
    } else {
        placements(mts.drop_first(), ids)
    }
}

/// Whether the caller's update function runs this frame.
pub open spec fn update_gate(paused: bool, frame_requested: bool) -> bool {
    !paused || frame_requested
}

/// The one-shot step flag after the frame decision: consumed while paused,
/// untouched while running.
pub open spec fn request_after_gate(paused: bool, frame_requested: bool) -> bool {
    if paused {
        false
    } else {
        frame_requested
    }
}

/// The one-shot step flag after `request_next_frame`: armed while paused,
/// unchanged otherwise.
pub open spec fn request_arm(paused: bool, frame_requested: bool) -> bool {
    frame_requested || paused
}

/// The per-application overlay state: one global text panel, the mini-texts
/// keyed by tracked identity, and the pause / single-step control flags.
pub struct Gui {
    /// The fixed global text panel.
    pub glob_text: GlobalText,
    /// The live mini-text labels, at most one per tracked identity.
    pub mini_text: Vec<MiniText>,
    /// While set, the caller's update function is gated off each frame.
    pub paused: bool,
    /// One-shot flag letting a single update through while paused; armed by
    /// `request_next_frame`, consumed by the frame decision.
    pub expect_frame: bool,
}

impl Gui {
    /// A fresh overlay state: no mini-texts, running (not paused), no step
    /// request pending.
    pub fn new(global_text: GlobalText) -> (r: Gui)
        ensures
            r.glob_text == global_text,
            r.mini_text@ =~= Seq::<MiniText>::empty(),
            !r.paused,
            !r.expect_frame,
    {
        Gui { glob_text: global_text, mini_text: Vec::new(), paused: false, expect_frame: false }
    }

    /// Pauses the update logic if running, or unpauses it if already paused.
    /// Camera input is not gated by this, so the view stays movable.
    pub fn switch_pause(&mut self)
        ensures
            final(self).paused == !old(self).paused,
            final(self).expect_frame == old(self).expect_frame,
            final(self).glob_text == old(self).glob_text,
            final(self).mini_text == old(self).mini_text,
    {
        self.paused = !self.paused;
    }

    /// While paused, arms the one-shot request to advance a single frame; a
    /// no-op while running.
    pub fn request_next_frame(&mut self)
        ensures
            final(self).expect_frame == request_arm(old(self).paused, old(self).expect_frame),
            final(self).paused == old(self).paused,
            final(self).glob_text == old(self).glob_text,
            final(self).mini_text == old(self).mini_text,
    {
        if self.paused {
            self.expect_frame = true;
        }
    }

    /// Reads and clears the one-shot advance request.
    pub fn expect_frame_consume(&mut self) -> (r: bool)
        ensures
            r == old(self).expect_frame,
            !final(self).expect_frame,
            final(self).paused == old(self).paused,
            final(self).glob_text == old(self).glob_text,
            final(self).mini_text == old(self).mini_text,
    {
        let expectation = self.expect_frame;
        self.expect_frame = false;
        expectation
    }

    /// The per-frame decision: the caller's update function runs iff not
    /// paused, or paused with a pending one-shot advance request, which this
    /// consumes. While running, the request flag is left untouched.
    pub fn should_run_update(&mut self) -> (r: bool)
        ensures
            r == update_gate(old(self).paused, old(self).expect_frame),
            final(self).expect_frame == request_after_gate(
                old(self).paused,
                old(self).expect_frame,
            ),
            final(self).paused == old(self).paused,
            final(self).glob_text == old(self).glob_text,
            final(self).mini_text == old(self).mini_text,
    {
        if !self.paused {
            true
        } else {
            self.expect_frame_consume()
        }
    }

    /// The mini-text tracking `uid`, if any.
    pub fn get_minitext(&self, uid: u64) -> (r: Option<&MiniText>)
        ensures
            match r {
                Option::Some(m) => {
                    &&& has_uid(uids_of(self.mini_text@), uid)
                    &&& *m == self.mini_text@[uid_index(uids_of(self.mini_text@), uid)]
                },
                Option::None => !has_uid(uids_of(self.mini_text@), uid),
            },
    {
        let n = self.mini_text.len();
        let mut i: usize = 0;
        while i < n
            invariant
                n == self.mini_text@.len(),
                i <= n,
                forall|j: int| 0 <= j < i ==> (#[trigger] self.mini_text@[j]).tracked_uid != uid,
            decreases n - i,
        {
            if self.mini_text[i].tracked_uid == uid {
                proof {
                    assert(uids_of(self.mini_text@)[i as int] == uid);
                    lemma_uid_index(uids_of(self.mini_text@), uid);
                    assert(forall|j: int|
                        0 <= j < i ==> uids_of(self.mini_text@)[j] == (
                        #[trigger] self.mini_text@[j]).tracked_uid);
                    assert(i as int == uid_index(uids_of(self.mini_text@), uid));
                }
                return Some(&self.mini_text[i]);
            }
            i = i + 1;
        }
        proof {
            assert(forall|j: int|
                0 <= j < n ==> uids_of(self.mini_text@)[j] == (
                #[trigger] self.mini_text@[j]).tracked_uid);
        }
        None
    }

    /// The mini-text tracking `uid`, if any, for mutation; the rest of the
    /// state is untouched.
    pub fn get_minitext_mut(&mut self, uid: u64) -> (r: Option<&mut MiniText>)
        ensures
            match r {
                Option::None => {
                    &&& !has_uid(uids_of(old(self).mini_text@), uid)
                    &&& *final(self) == *old(self)
                },
                Option::Some(m) => {
                    let idx = uid_index(uids_of(old(self).mini_text@), uid);
                    &&& has_uid(uids_of(old(self).mini_text@), uid)
                    &&& *m == old(self).mini_text@[idx]
                    &&& final(self).mini_text@ == old(self).mini_text@.update(idx, *final(m))
                    &&& final(self).glob_text == old(self).glob_text
                    &&& final(self).paused == old(self).paused
                    &&& final(self).expect_frame == old(self).expect_frame
                },
            },
    {
        let n = self.mini_text.len();
        let mut i: usize = 0;
        while i < n
            invariant
                *self == *old(self),
                n == self.mini_text@.len(),
                i <= n,
                forall|j: int| 0 <= j < i ==> (#[trigger] self.mini_text@[j]).tracked_uid != uid,
            decreases n - i,
        {
            if self.mini_text[i].tracked_uid == uid {
                proof {
                    assert(uids_of(self.mini_text@)[i as int] == uid);
                    lemma_uid_index(uids_of(self.mini_text@), uid);
                    assert(forall|j: int|
                        0 <= j < i ==> uids_of(self.mini_text@)[j] == (
                        #[trigger] self.mini_text@[j]).tracked_uid);
                    assert(i as int == uid_index(uids_of(self.mini_text@), uid));
                }
                return Some(&mut self.mini_text[i]);
            }
            i = i + 1;
        }
        proof {
            assert(forall|j: int|
                0 <= j < n ==> uids_of(self.mini_text@)[j] == (
                #[trigger] self.mini_text@[j]).tracked_uid);
        }
        None
    }

    /// Starts tracking the particle with identity `particle_uid` with a fresh
    /// mini-text whose named fields start out empty. Rejected if a mini-text
    /// already tracks that identity, or if no live particle carries it; the
    /// state is then unchanged.
    pub fn create_minitext(
        &mut self,
        fields: &[&str],
        particle_uid: u64,
        particle_ids: &[u64],
    ) -> (r: Result<(), GuiError>)
        ensures
            has_uid(uids_of(old(self).mini_text@), particle_uid) ==> {
                &&& r == Err::<(), GuiError>(GuiError::DuplicateTracking)
                &&& *final(self) == *old(self)
            },
            !has_uid(uids_of(old(self).mini_text@), particle_uid) && !has_uid(
                particle_ids@,
                particle_uid,
            ) ==> {
                &&& r == Err::<(), GuiError>(GuiError::ParticleNotFound)
                &&& *final(self) == *old(self)
            },
            !has_uid(uids_of(old(self).mini_text@), particle_uid) && has_uid(
                particle_ids@,
                particle_uid,
            ) ==> {
                let mt = final(self).mini_text@.last();
                &&& r == Ok::<(), GuiError>(())
                &&& final(self).mini_text@.len() == old(self).mini_text@.len() + 1
                &&& final(self).mini_text@.drop_last() == old(self).mini_text@
                &&& mt.tracked_uid == particle_uid
                &&& mt.tracked_index == uid_index(particle_ids@, particle_uid)
                &&& !mt.disabled
                &&& mt@.len() == fields@.len()
                &&& forall|i: int| 0 <= i < fields@.len() ==> (#[trigger] mt@[i]).0 == fields@[i]@
                    && mt@[i].1 == Seq::<char>::empty()
                &&& final(self).glob_text == old(self).glob_text
                &&& final(self).paused == old(self).paused
                &&& final(self).expect_frame == old(self).expect_frame
                &&& minitexts_unique(old(self).mini_text@) ==> minitexts_unique(
                    final(self).mini_text@,
                )
            },
    {
        if self.get_minitext(particle_uid).is_some() {
            return Err(GuiError::DuplicateTracking);
        }
        match MiniText::try_new(fields, particle_uid, particle_ids) {
            Option::None => Err(GuiError::ParticleNotFound),
            Option::Some(mt) => {
                self.mini_text.push(mt);
                proof {
                    let pre = old(self).mini_text@;
                    let post = self.mini_text@;
                    assert(post.drop_last() =~= pre);
                    assert(forall|j: int|
                        0 <= j < pre.len() ==> uids_of(pre)[j] == (
                        #[trigger] pre[j]).tracked_uid);
                    if minitexts_unique(pre) {
                        assert forall|a: int, b: int|
                            0 <= a < b < post.len() implies post[a].tracked_uid
                            != post[b].tracked_uid by {
                            if b == post.len() - 1 {
                                assert(uids_of(pre)[a] != particle_uid);
                            }
                        }
                    }
                }
                Ok(())
            },
        }
    }

    /// Stops tracking `uid`: removes its mini-text, keeping the order of the
    /// others. Reports whether a mini-text was removed; absent identities are
    /// a no-op.
    pub fn remove_minitext(&mut self, uid: u64) -> (r: bool)
        ensures
            !has_uid(uids_of(old(self).mini_text@), uid) ==> {
                &&& !r
                &&& *final(self) == *old(self)
            },
            has_uid(uids_of(old(self).mini_text@), uid) ==> {
                &&& r
                &&& final(self).mini_text@ == old(self).mini_text@.remove(
                    uid_index(uids_of(old(self).mini_text@), uid),
                )
                &&& final(self).glob_text == old(self).glob_text
                &&& final(self).paused == old(self).paused
                &&& final(self).expect_frame == old(self).expect_frame
            },
    {
        let n = self.mini_text.len();
        let mut i: usize = 0;
        while i < n
            invariant
                *self == *old(self),
                n == self.mini_text@.len(),
                i <= n,
                forall|j: int| 0 <= j < i ==> (#[trigger] self.mini_text@[j]).tracked_uid != uid,
            decreases n - i,
        {
            if self.mini_text[i].tracked_uid == uid {
                proof {
                    assert(uids_of(self.mini_text@)[i as int] == uid);
                    lemma_uid_index(uids_of(self.mini_text@), uid);
                    assert(forall|j: int|
                        0 <= j < i ==> uids_of(self.mini_text@)[j] == (
                        #[trigger] self.mini_text@[j]).tracked_uid);
                    assert(i as int == uid_index(uids_of(self.mini_text@), uid));
                }
                self.mini_text.remove(i);
                return true;
            }
            i = i + 1;
        }
        proof {
            assert(forall|j: int|
                0 <= j < n ==> uids_of(self.mini_text@)[j] == (
                #[trigger] self.mini_text@[j]).tracked_uid);
        }
        false
    }

    /// One draw pass over the mini-texts, given the identities of the live
    /// particles in sequence order: reports where each still-live mini-text
    /// is drawn (its identity and particle index, in mini-text order) and
    /// purges every mini-text whose particle is gone, keeping the order of
    /// the survivors. No mini-text may already be disabled: the purge at the
    /// end of every pass guarantees that for the next one.
    pub fn draw_pass(&mut self, particle_ids: &[u64]) -> (r: Vec<(u64, usize)>)
        requires
            all_enabled(old(self).mini_text@),
        ensures
            final(self).mini_text@ == surviving(old(self).mini_text@, particle_ids@),
            r@ == placements(old(self).mini_text@, particle_ids@),
            final(self).glob_text == old(self).glob_text,
            final(self).paused == old(self).paused,
            final(self).expect_frame == old(self).expect_frame,
    {
        let ghost orig = self.mini_text@;
        let ghost ids = particle_ids@;
        let mut kept: Vec<MiniText> = Vec::new();
        let mut out: Vec<(u64, usize)> = Vec::new();
        proof {
            assert(kept@ + surviving(orig, ids) =~= surviving(orig, ids));
            assert(out@ + placements(orig, ids) =~= placements(orig, ids));
        }
        while self.mini_text.len() > 0
            invariant
                orig == old(self).mini_text@,
                ids == particle_ids@,
                all_enabled(self.mini_text@),
                surviving(orig, ids) == kept@ + surviving(self.mini_text@, ids),
                placements(orig, ids) == out@ + placements(self.mini_text@, ids),
                self.glob_text == old(self).glob_text,
                self.paused == old(self).paused,
                self.expect_frame == old(self).expect_frame,
            decreases self.mini_text@.len(),
        {
            let ghost pre = self.mini_text@;
            let ghost kept_pre = kept@;
            let ghost out_pre = out@;
            let mut mt = self.mini_text.remove(0);
            proof {
                assert(self.mini_text@ =~= pre.drop_first());
                assert(forall|j: int|
                    0 <= j < pre.drop_first().len() ==> !(#[trigger] pre.drop_first()[j]).disabled);
            }
            let res = mt.resolve(particle_ids);
            proof {
                if !cache_ok(pre[0], ids) && live(pre[0], ids) {
                    lemma_uid_index(ids, pre[0].tracked_uid);
                }
                if cache_ok(pre[0], ids) {
                    assert(live(pre[0], ids)) by {
                        assert(ids[pre[0].tracked_index as int] == pre[0].tracked_uid);
                    }
                }
            }
            match res {
                Option::Some(idx) => {
                    proof {
                        assert(live(pre[0], ids));
                        assert(mt == resolve_model(pre[0], ids));
                        assert(idx as int == resolved_index(pre[0], ids));
                    }
                    out.push((mt.tracked_uid, idx));
                    kept.push(mt);
                    proof {
                        assert(surviving(pre, ids) == seq![resolve_model(pre[0], ids)]
                            + surviving(pre.drop_first(), ids));
                        assert(kept@ + surviving(self.mini_text@, ids) =~= kept_pre + surviving(
                            pre,
                            ids,
                        )) by {
                            assert(kept@ =~= kept_pre.push(mt));
                        }
                        assert(placements(pre, ids) == seq![
                            (pre[0].tracked_uid, resolved_index(pre[0], ids) as usize),
                        ] + placements(pre.drop_first(), ids));
                        assert(out@ + placements(self.mini_text@, ids) =~= out_pre + placements(
                            pre,
                            ids,
                        )) by {
                            assert(out@ =~= out_pre.push((mt.tracked_uid, idx)));
                        }
                    }
                },
                Option::None => {
                    proof {
                        assert(!live(pre[0], ids));
                        assert(surviving(pre, ids) == surviving(pre.drop_first(), ids));
                        assert(placements(pre, ids) == placements(pre.drop_first(), ids));
                    }
                },
            }
        }
        proof {
            assert(surviving(self.mini_text@, ids) =~= Seq::<MiniText>::empty());
            assert(kept@ + surviving(self.mini_text@, ids) =~= kept@);
            assert(placements(self.mini_text@, ids) =~= Seq::<(u64, usize)>::empty());
            assert(out@ + placements(self.mini_text@, ids) =~= out@);
        }
        self.mini_text = kept;
        out
    }
}

/// Pause / single-step gating is one-shot: while paused with no pending
/// request the update is gated off; arming the request lets exactly one
/// update through — the decision right after the request is to run, and the
/// decision after that one (without a new request) is again not to run.
pub proof fn lemma_pause_step_gating()
    ensures
        !update_gate(true, false),
        update_gate(true, request_arm(true, false)),
        !update_gate(true, request_after_gate(true, request_arm(true, false))),
{
}

/// A draw pass is idempotent on the mini-text collection: the survivors of a
/// pass all survive a second pass over the same particles, unchanged.
pub proof fn lemma_surviving_idempotent(mts: Seq<MiniText>, ids: Seq<u64>)
    requires
        ids.len() <= usize::MAX,
    ensures
        surviving(surviving(mts, ids), ids) == surviving(mts, ids),
    decreases mts.len(),
{
    if mts.len() == 0 {
        assert(surviving(mts, ids) =~= Seq::<MiniText>::empty());
    } else {
        let rest = mts.drop_first();
        lemma_surviving_idempotent(rest, ids);
        if live(mts[0], ids) {
            let m = resolve_model(mts[0], ids);
            if !cache_ok(mts[0], ids) {
                lemma_uid_index(ids, mts[0].tracked_uid);
            }
            assert(cache_ok(m, ids));
            assert(resolve_model(m, ids) == m);
            let s = surviving(mts, ids);
            assert(s == seq![m] + surviving(rest, ids));
            assert(s.len() > 0 && s[0] == m);
            assert(s.drop_first() =~= surviving(rest, ids));
            assert(live(m, ids)) by {
                assert(ids[m.tracked_index as int] == m.tracked_uid);
            }
            assert(surviving(s, ids) == seq![resolve_model(s[0], ids)] + surviving(
                s.drop_first(),
                ids,
            ));
            assert(surviving(s, ids) =~= s);
        } else {
            assert(surviving(mts, ids) == surviving(rest, ids));
        }
    }
}

/// After a draw pass every remaining mini-text tracks a particle that is
/// still present, none is disabled, and the cached index of each points at a
/// particle carrying its tracked identity.
pub proof fn lemma_surviving_live(mts: Seq<MiniText>, ids: Seq<u64>)
    requires
        ids.len() <= usize::MAX,
    ensures
        all_enabled(surviving(mts, ids)),
        forall|j: int| 0 <= j < surviving(mts, ids).len() ==> live(
            #[trigger] surviving(mts, ids)[j],
            ids,
        ),
        forall|j: int| 0 <= j < surviving(mts, ids).len() ==> cache_ok(
            #[trigger] surviving(mts, ids)[j],
            ids,
        ),
    decreases mts.len(),
{
    if mts.len() == 0 {
    } else {
        let rest = mts.drop_first();
        lemma_surviving_live(rest, ids);
        if live(mts[0], ids) {
            let m = resolve_model(mts[0], ids);
            if !cache_ok(mts[0], ids) {
                lemma_uid_index(ids, mts[0].tracked_uid);
            }
            assert(cache_ok(m, ids));
            assert(live(m, ids)) by {
                assert(ids[m.tracked_index as int] == m.tracked_uid);
            }
            let s = surviving(mts, ids);
            assert(s == seq![m] + surviving(rest, ids));
            assert(forall|j: int| 1 <= j < s.len() ==> s[j] == surviving(rest, ids)[j - 1]);
        }
    }
}

/// A draw pass keeps tracked identities pairwise distinct: the survivors
/// track a subset of the identities tracked before the pass, in order.
pub proof fn lemma_surviving_unique(mts: Seq<MiniText>, ids: Seq<u64>)
    requires
        minitexts_unique(mts),
    ensures
        minitexts_unique(surviving(mts, ids)),
        forall|j: int| 0 <= j < surviving(mts, ids).len() ==> has_uid(
            uids_of(mts),
            (#[trigger] surviving(mts, ids)[j]).tracked_uid,
        ),
    decreases mts.len(),
{
    if mts.len() == 0 {
    } else {
        let rest = mts.drop_first();
        assert(minitexts_unique(rest)) by {
            assert(forall|j: int| 0 <= j < rest.len() ==> rest[j] == mts[j + 1]);
        }
        lemma_surviving_unique(rest, ids);
        let s = surviving(mts, ids);
        assert(forall|j: int|
            0 <= j < rest.len() ==> uids_of(rest)[j] == (#[trigger] rest[j]).tracked_uid);
        assert(forall|j: int|
            0 <= j < mts.len() ==> uids_of(mts)[j] == (#[trigger] mts[j]).tracked_uid);
        if live(mts[0], ids) {
            let m = resolve_model(mts[0], ids);
            assert(s == seq![m] + surviving(rest, ids));
            assert(forall|j: int| 1 <= j < s.len() ==> s[j] == surviving(rest, ids)[j - 1]);
            assert forall|j: int| 1 <= j < s.len() implies s[0].tracked_uid != (
            #[trigger] s[j]).tracked_uid by {
                let uid = surviving(rest, ids)[j - 1].tracked_uid;
                assert(has_uid(uids_of(rest), uid));
                let k = choose|k: int| 0 <= k < uids_of(rest).len() && uids_of(rest)[k] == uid;
                assert(mts[k + 1].tracked_uid == uid);
            }
            assert forall|j: int| 0 <= j < s.len() implies has_uid(
                uids_of(mts),
                (#[trigger] s[j]).tracked_uid,
            ) by {
                if j == 0 {
                    assert(uids_of(mts)[0] == s[0].tracked_uid);
                } else {
                    let uid = s[j].tracked_uid;
                    assert(has_uid(uids_of(rest), uid));
                    let k = choose|k: int| 0 <= k < uids_of(rest).len() && uids_of(rest)[k] == uid;
                    assert(uids_of(mts)[k + 1] == uid);
                }
            }
        } else {
            assert(s == surviving(rest, ids));
            assert forall|j: int| 0 <= j < s.len() implies has_uid(
                uids_of(mts),
                (#[trigger] s[j]).tracked_uid,
            ) by {
                let uid = s[j].tracked_uid;
                assert(has_uid(uids_of(rest), uid));
                let k = choose|k: int| 0 <= k < uids_of(rest).len() && uids_of(rest)[k] == uid;
                assert(uids_of(mts)[k + 1] == uid);
            }
        }
    }
}

} // verus!
