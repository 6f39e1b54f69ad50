//! The core handle: the capability-checked façade that modules and the IPC
//! server use to act on a device.
use vstd::prelude::*;
use crate::versions::{FeatureView, features_view, supported_features, supported_features_spec};
use crate::panel::{copy_string, strings_view, lemma_strings_view_push, Button, ButtonPanel, ButtonView, PanelView, panel_to_raw, button_to_raw, names_of, panels_view, lemma_panels_view_push, lemma_panels_view_drop_last};
use crate::device::{SDCore, SDCoreEvent, EventView, Dispatch, DispatchView, DeviceConfig, DeviceCommand, dispatches_view, recipients_for, other_than, lemma_dispatches_view_push};
use crate::modules::{ModuleManager, SDModule};
use crate::socket::SocketManager;
use crate::value::{UIValue, UIPathValue, PathEdit, EditView, SegView, ValueView, parse_path, change_from_path, valid_path, path_text, is_path_text, parsed_path, edit_path, get_path, edit_view, path_view, value_view, values_view};

verus! {

/// The name that core-internal and IPC-originated calls act under.
pub open spec fn system_module_name() -> Seq<char> {
    "-system-"@
}

/// A feature of that name is in the list.
pub open spec fn declares_feature(features: Seq<FeatureView>, feature: Seq<char>) -> bool {
    exists|i: int| 0 <= i < features.len() && #[trigger] features[i].0 == feature
}

/// The line logged when a module uses a feature it did not declare.
pub open spec fn feature_warning(module_name: Seq<char>, feature: Seq<char>) -> Seq<char> {
    "Module '"@ + module_name + "' is using unreported feature '"@ + feature
        + "', please add the feature into plugin metadata to prevent any future crashes due to version incompatibility"@
}

/// Checks if a list of features contains a specific feature.
pub fn check_feature_list_for_feature(features: &Vec<(String, String)>, feature: &str) -> (r: bool)
    ensures
        r == declares_feature(features_view(features@), feature@),
{
    let mut i: usize = 0;
    while i < features.len()
        invariant
            i <= features.len(),
            forall|j: int| 0 <= j < i ==> features@[j].0@ != feature@,
        decreases features.len() - i,
    {
        if crate::panel::text_eq(&features[i].0, feature) {
            assert(features_view(features@)[i as int].0 == feature@);
            return true;
        }
        i += 1;
    }
    proof {
        if declares_feature(features_view(features@), feature@) {
            let j = choose|j: int| 0 <= j < features_view(features@).len() && #[trigger] features_view(features@)[j].0 == feature@;
            assert(features@[j].0@ == feature@);
        }
    }
    false
}

/// The warning due when a module uses a feature that it did not declare;
/// `None` when it declared it.
pub fn warn_for_feature(module_name: &str, features: &Vec<(String, String)>, feature: &str) -> (r: Option<String>)
    ensures
        match r {
            Some(w) => !declares_feature(features_view(features@), feature@)
                && w@ == feature_warning(module_name@, feature@),
            None => declares_feature(features_view(features@), feature@),
        },
{
    if !check_feature_list_for_feature(features, feature) {
        let mut w = String::from_str("Module '");
        w.append(module_name);
        w.append("' is using unreported feature '");
        w.append(feature);
        w.append("', please add the feature into plugin metadata to prevent any future crashes due to version incompatibility");
        Some(w)
    } else {
        None
    }
}

/// Copies a list of declared features, keeping its content.
pub fn copy_features(fs: &Vec<(String, String)>) -> (r: Vec<(String, String)>)
    ensures
        features_view(r@) == features_view(fs@),
{
    let mut r: Vec<(String, String)> = Vec::new();
    let mut i: usize = 0;
    while i < fs.len()
        invariant
            i <= fs@.len(),
            features_view(r@) == features_view(fs@).subrange(0, i as int),
        decreases fs@.len() - i,
    {
        let ghost r0 = r@;
        let e = (copy_string(&fs[i].0), copy_string(&fs[i].1));
        r.push(e);
        assert(r@ == r0.push(e));
        proof { crate::versions::lemma_features_view_push(r0, e); }
        assert(features_view(r@) =~= features_view(fs@).subrange(0, i + 1));
        i += 1;
    }
    assert(features_view(fs@).subrange(0, i as int) =~= features_view(fs@));
    r
}

/// Keeps the names that differ from `origin`, in order.
pub fn filter_recipients(names: &Vec<String>, origin: &String) -> (r: Vec<String>)
    ensures
        strings_view(r@) == recipients_for(strings_view(names@), origin@),
{
    let ghost all = strings_view(names@);
    let mut r: Vec<String> = Vec::new();
    let mut i: usize = 0;
    while i < names.len()
        invariant
            i <= names@.len(),
            all == strings_view(names@),
            strings_view(r@) == recipients_for(all.subrange(0, i as int), origin@),
        decreases names@.len() - i,
    {
        proof {
            assert(all.subrange(0, i as int).push(all[i as int]) =~= all.subrange(0, i + 1));
            all.subrange(0, i as int).lemma_filter_push(all[i as int], other_than(origin@));
        }
        if *origin != names[i] {
            let ghost r0 = r@;
            let c = copy_string(&names[i]);
            r.push(c);
            proof { lemma_strings_view_push(r0, c); }
        }
        i += 1;
    }
    assert(all.subrange(0, i as int) =~= all);
    r
}

/// No module named in an event's recipients is the module it came from.
pub proof fn lemma_no_echo(names: Seq<Seq<char>>, origin: Seq<char>)
    ensures
        forall|i: int| 0 <= i < recipients_for(names, origin).len()
            ==> #[trigger] recipients_for(names, origin)[i] != origin,
{
    assert forall|i: int| 0 <= i < recipients_for(names, origin).len()
        implies #[trigger] recipients_for(names, origin)[i] != origin by {
        names.lemma_filter_pred(other_than(origin), i);
    }
}

/// Pushing a panel and then popping leaves the stack as it was: `c1` is
/// what `push_screen` makes of `c0`, and `c2` what `pop_screen` makes of
/// `c1`, each as its contract states.
pub proof fn lemma_push_then_pop<M>(c0: &SDCore<M>, c1: &SDCore<M>, c2: &SDCore<M>, p: PanelView)
    requires
        c0.stack().len() > 0,
        c1.stack() == c0.stack().push(p),
        if c1.stack().len() > 1 { c2.stack() == c1.stack().drop_last() } else { c2.stack() == c1.stack() },
    ensures
        c2.stack() == c0.stack(),
{
    assert(c0.stack().push(p).drop_last() =~= c0.stack());
}

/// After `drop_stack_to_root` (from `c0` to `c1`, as its contract states)
/// on an initialized device, the stack holds one panel, the root.
pub proof fn lemma_drop_to_root_leaves_one<M>(c0: &SDCore<M>, c1: &SDCore<M>)
    requires
        c0.stack().len() > 0,
        if c0.stack().len() > 1 { c1.stack() == seq![c0.stack()[0]] } else { c1.stack() == c0.stack() },
    ensures
        c1.stack().len() == 1,
        c1.stack()[0] == c0.stack()[0],
{
}

/// The stack with the button at `key` of its top panel set to `b`.
pub open spec fn with_button(stack: Seq<PanelView>, key: u8, b: ButtonView) -> Seq<PanelView> {
    stack.update(stack.len() - 1, PanelView { buttons: stack.last().buttons.insert(key, b), ..stack.last() })
}

/// The stack with the button at `key` of its top panel removed.
pub open spec fn without_button(stack: Seq<PanelView>, key: u8) -> Seq<PanelView> {
    stack.update(stack.len() - 1, PanelView { buttons: stack.last().buttons.remove(key), ..stack.last() })
}

/// The button at `key` on the top panel, where there is a top panel.
pub open spec fn top_button(stack: Seq<PanelView>, key: u8) -> Option<ButtonView> {
    if stack.len() > 0 && stack.last().buttons.contains_key(key) {
        Some(stack.last().buttons[key])
    } else {
        None
    }
}

/// The parts of a device that stack and button operations leave alone.
pub open spec fn same_device<M>(a: &SDCore<M>, b: &SDCore<M>) -> bool {
    &&& a.serial_number == b.serial_number
    &&& a.key_count == b.key_count
    &&& a.image_size == b.image_size
    &&& a.module_manager == b.module_manager
    &&& a.socket_manager == b.socket_manager
    &&& a.device_config == b.device_config
    &&& a.commands == b.commands
}

/// Sets a button at `key` on the top panel, handing back the one it replaced.
fn put_button<M>(core: &mut SDCore<M>, key: u8, button: Button) -> (r: Option<Button>)
    requires
        old(core).stack().len() > 0,
    ensures
        *final(core) == (SDCore { current_stack: final(core).current_stack, ..*old(core) }),
        final(core).stack() == with_button(old(core).stack(), key, button@),
        match r {
            Some(b) => top_button(old(core).stack(), key) == Some(b@),
            None => top_button(old(core).stack(), key) is None,
        },
{
    let ghost s0 = core.current_stack@;
    let ghost bv = button@;
    proof { lemma_panels_view_drop_last(s0); }
    let mut top = core.current_stack.pop().unwrap();
    let ghost s1 = core.current_stack@;
    let r = top.set_button(key, button);
    let ghost t = top;
    core.current_stack.push(top);
    proof {
        lemma_panels_view_push(s1, t);
        assert(core.stack() =~= with_button(panels_view(s0), key, bv));
    }
    r
}

/// Removes the button at `key` from the top panel, handing it back.
fn take_button<M>(core: &mut SDCore<M>, key: u8) -> (r: Option<Button>)
    requires
        old(core).stack().len() > 0,
    ensures
        *final(core) == (SDCore { current_stack: final(core).current_stack, ..*old(core) }),
        final(core).stack() == without_button(old(core).stack(), key),
        match r {
            Some(b) => top_button(old(core).stack(), key) == Some(b@),
            None => top_button(old(core).stack(), key) is None,
        },
{
    let ghost s0 = core.current_stack@;
    proof { lemma_panels_view_drop_last(s0); }
    let mut top = core.current_stack.pop().unwrap();
    let ghost s1 = core.current_stack@;
    let r = top.remove_button(key);
    let ghost t = top;
    core.current_stack.push(top);
    proof {
        lemma_panels_view_push(s1, t);
        assert(core.stack() =~= without_button(panels_view(s0), key));
    }
    r
}

/// A copy of the button at `key` on the top panel.
fn peek_button<M>(core: &SDCore<M>, key: u8) -> (r: Option<Button>)
    ensures
        match r {
            Some(b) => top_button(core.stack(), key) == Some(b@),
            None => top_button(core.stack(), key) is None,
        },
{
    let n = core.current_stack.len();
    if n == 0 {
        return None;
    }
    proof { lemma_panels_view_drop_last(core.current_stack@); }
    core.current_stack[n - 1].get_button(key)
}

/// The buttons of the current screen for keys `0..key_count`, as
/// snapshots; `None` where the stack is empty.
pub fn current_screen_buttons<M>(core: &SDCore<M>) -> (r: Option<Vec<Option<Button>>>)
    ensures
        match r {
            None => core.stack().len() == 0,
            Some(v) => core.stack().len() > 0 && v@.len() == core.key_count as int
                && forall|i: int| 0 <= i < v@.len() ==> match #[trigger] v@[i] {
                    Some(b) => top_button(core.stack(), i as u8) == Some(b@),
                    None => top_button(core.stack(), i as u8) is None,
                },
        },
{
    if core.current_stack.len() == 0 {
        return None;
    }
    let mut out: Vec<Option<Button>> = Vec::new();
    let mut k: u8 = 0;
    while k < core.key_count
        invariant
            core.stack().len() > 0,
            k <= core.key_count,
            out@.len() == k as int,
            forall|i: int| 0 <= i < out@.len() ==> match #[trigger] out@[i] {
                Some(b) => top_button(core.stack(), i as u8) == Some(b@),
                None => top_button(core.stack(), i as u8) is None,
            },
        decreases core.key_count - k,
    {
        let b = peek_button(core, k);
        out.push(b);
        k += 1;
    }
    Some(out)
}

/// The owner of `name` where the top panel has a button at `key` that
/// does (`present`) or does not (`!present`) hold a component `name`.
fn owner_for_edit<M>(core: &SDCore<M>, key: u8, name: &str, present: bool) -> (r: Option<usize>)
    ensures
        match r {
            Some(m) => core.module_manager.owns(m as int, name@) && edit_allowed(core, key, name@, present)
                && m as int == core.module_manager.owner_index(name@),
            None => !(edit_allowed(core, key, name@, present) && has_owner(core, name@)),
        },
{
    match peek_button(core, key) {
        Some(b) => {
            if b.has_component(name) == present {
                let r = core.module_manager.owner_of(name);
                proof {
                    if r is None && has_owner(core, name@) {
                        let i = choose|i: int| #[trigger] core.module_manager.owns(i, name@);
                        assert(!core.module_manager.owns(i, name@));
                    }
                }
                r
            } else {
                None
            }
        },
        None => None,
    }
}

/// The values of a component of the button at `key`, as its owning module
/// reports them, where there is such a button, component and owner.
fn values_of<M: SDModule>(core: &SDCore<M>, key: u8, name: &str) -> (r: Option<Vec<UIValue>>)
    ensures
        r is Some == (edit_allowed(core, key, name@, true) && has_owner(core, name@)),
        r is Some ==> values_view(r.unwrap()@)
            == owner_module(core, name@).values_of(top_button(core.stack(), key).unwrap(), name@),
{
    let m = match owner_for_edit(core, key, name, true) {
        Some(m) => m,
        None => return None,
    };
    let button = peek_button(core, key).unwrap();
    Some(core.module_manager.modules[m].module.component_values(&button, name))
}

/// The top panel has a button at `key`, which holds (`present`) or lacks
/// (`!present`) a component `name`.
pub open spec fn edit_allowed<M>(core: &SDCore<M>, key: u8, name: Seq<char>, present: bool) -> bool {
    &&& top_button(core.stack(), key) is Some
    &&& names_of(top_button(core.stack(), key).unwrap()).contains(name) == present
}

/// Some module owns a component `name`.
pub open spec fn has_owner<M>(core: &SDCore<M>, name: Seq<char>) -> bool {
    exists|i: int| #[trigger] core.module_manager.owns(i, name)
}

/// The button the owners in `owners`, in order, build from `reference`
/// when pasting onto an empty button.
pub open spec fn pasted_from<M: SDModule>(mm: &ModuleManager<M>, owners: Seq<usize>, reference: ButtonView) -> ButtonView
    decreases owners.len(),
{
    if owners.len() == 0 {
        Seq::empty()
    } else {
        mm.modules@[owners.last() as int].module.pasted(reference, pasted_from(mm, owners.drop_last(), reference))
    }
}

/// Each value with its name as its path, in order.
fn with_name_paths(values: Vec<UIValue>) -> (r: Vec<UIPathValue>)
    ensures
        forall|i: int| 0 <= i < r@.len() ==> #[trigger] r@[i].path@ == r@[i].value.name@,
        path_values_view(r@) == values_view(values@),
{
    let ghost all = values_view(values@);
    let mut out: Vec<UIPathValue> = Vec::new();
    let mut values = values;
    while values.len() > 0
        invariant
            forall|i: int| 0 <= i < out@.len() ==> #[trigger] out@[i].path@ == out@[i].value.name@,
            path_values_view(out@) + values_view(values@) == all,
        decreases values@.len(),
    {
        let ghost o0 = out@;
        let ghost v0 = values@;
        let v = values.remove(0);
        let path = copy_string(&v.name);
        let pv = UIPathValue { path, value: v };
        out.push(pv);
        assert(path_values_view(out@) =~= path_values_view(o0).push(value_view(&pv.value)));
        assert(values_view(v0) =~= seq![value_view(&pv.value)] + values_view(values@));
        assert(path_values_view(out@) + values_view(values@) =~= path_values_view(o0) + values_view(v0));
    }
    assert(values_view(values@) =~= Seq::<ValueView>::empty());
    assert(path_values_view(out@) + values_view(values@) =~= path_values_view(out@));
    out
}

/// The values of a list of values with paths.
pub open spec fn path_values_view(s: Seq<UIPathValue>) -> Seq<ValueView> {
    s.map_values(|p: UIPathValue| value_view(&p.value))
}

/// The module that owns components named `name`: the first registered one.
pub open spec fn owner_module<M>(core: &SDCore<M>, name: Seq<char>) -> M {
    core.module_manager.modules@[core.module_manager.owner_index(name)].module
}

/// The button at `key` on the current screen; meaningful where there is one.
pub open spec fn button_at<M>(core: &SDCore<M>, key: u8) -> ButtonView {
    top_button(core.stack(), key).unwrap()
}

/// The stack and dispatches of `after`: the button at `key` was replaced by
/// `nb`, and modules were told with a `ButtonUpdated` event.
pub open spec fn rewritten_to<M>(h: &CoreHandle, before: &SDCore<M>, after: &SDCore<M>, key: u8, nb: ButtonView) -> bool {
    &&& after.stack() == with_button(before.stack(), key, nb)
    &&& h.sent(before, after, EventView::ButtonUpdated {
        key,
        new_button: nb,
        old_button: button_at(before, key),
    }, before.module_names())
}

/// The values a path edit hands the owning module: the values the owner
/// reports, edited at the path the text reads as. `None` where there is no
/// such button, component or owner, where the text is not a valid path,
/// where the edit is refused, or where no values are left.
pub open spec fn path_edit_result<M: SDModule>(
    before: &SDCore<M>,
    key: u8,
    name: Seq<char>,
    path: Seq<char>,
    e: EditView,
) -> Option<Seq<ValueView>> {
    if edit_allowed(before, key, name, true) && has_owner(before, name) && is_path_text(path) {
        match edit_path(owner_module(before, name).values_of(button_at(before, key), name), parsed_path(path), e) {
            Some(t) => if t.len() > 0 { Some(t) } else { None },
            None => None,
        }
    } else {
        None
    }
}

/// What a path edit does to a device: where it applies, the owner is handed
/// the edited values, which make the new button, and a redraw is due; else
/// the stack, the dispatches and the redraw flag are as they were.
pub open spec fn path_edit_done<M: SDModule>(
    h: &CoreHandle,
    before: &SDCore<M>,
    after: &SDCore<M>,
    key: u8,
    name: Seq<char>,
    path: Seq<char>,
    e: EditView,
) -> bool {
    match path_edit_result(before, key, name, path, e) {
        Some(t) => {
            &&& rewritten_to(h, before, after, key,
                owner_module(before, name).with_values(button_at(before, key), name, t))
            &&& after.redraw_pending
        },
        None => {
            &&& after.current_stack == before.current_stack
            &&& after.dispatched == before.dispatched
            &&& after.redraw_pending == before.redraw_pending
        },
    }
}

/// Setting a value by path through a component's owner: where the owner
/// reports back exactly the values it was last handed, reading the path
/// afterwards gives the new payload (with the target's name and flags), and
/// every path that parts from it reads as before.
pub proof fn lemma_set_by_path_then_get<M: SDModule>(
    h: &CoreHandle,
    before: &SDCore<M>,
    after: &SDCore<M>,
    key: u8,
    name: Seq<char>,
    text: Seq<char>,
    w: ValueView,
)
    requires
        path_edit_result(before, key, name, text, EditView::SetValue(w)) is Some,
        path_edit_done(h, before, after, key, name, text, EditView::SetValue(w)),
        forall|b: ButtonView, t: Seq<ValueView>| #[trigger] owner_module(before, name).values_of(
            owner_module(before, name).with_values(b, name, t), name) == t,
    ensures
        ({
            let p = parsed_path(text);
            let m = owner_module(before, name);
            let old_vals = m.values_of(button_at(before, key), name);
            let new_vals = m.values_of(button_at(after, key), name);
            &&& valid_path(p) && path_text(p) == text
            &&& get_path(new_vals, p) == Some(ValueView { value: w.value, ..get_path(old_vals, p).unwrap() })
            &&& forall|q: Seq<SegView>| crate::value::diverges(p, q) ==> #[trigger] get_path(new_vals, q) == get_path(old_vals, q)
            &&& new_vals.len() == old_vals.len()
            &&& crate::value::value_names(new_vals) == crate::value::value_names(old_vals)
        }),
{
    let m = owner_module(before, name);
    let b = button_at(before, key);
    let e = EditView::SetValue(w);
    let p = parsed_path(text);
    let t = edit_path(m.values_of(b, name), p, e).unwrap();
    let nb = m.with_values(b, name, t);
    assert(with_button(before.stack(), key, nb).last().buttons[key] == nb);
    assert(button_at(after, key) == nb);
    assert(m.values_of(nb, name) == t);
    crate::value::lemma_set_then_get(m.values_of(b, name), p, w);
}

/// What the owning module's callback makes of the button for an edit.
spec fn edit_effect<M: SDModule>(core: &SDCore<M>, key: u8, name: Seq<char>, e: ComponentEdit) -> ButtonView {
    let m = owner_module(core, name);
    let b = button_at(core, key);
    match e {
        ComponentEdit::Add => m.added(b, name),
        ComponentEdit::Remove => m.removed(b, name),
        ComponentEdit::SetValues(v) => m.with_values(b, name, values_view(v@)),
    }
}

/// The event that setting `b` at `key` sends.
pub open spec fn set_event(stack: Seq<PanelView>, key: u8, b: ButtonView) -> EventView {
    match top_button(stack, key) {
        Some(prev) => EventView::ButtonUpdated { key, new_button: b, old_button: prev },
        None => EventView::ButtonAdded { key, added_button: b },
    }
}

/// A change a module makes to one of its components.
enum ComponentEdit {
    Add,
    Remove,
    SetValues(Vec<UIValue>),
}

/// Handle given out to a module (or used by the core itself) to act on a
/// device; it carries the caller's identity and declared features.
pub struct CoreHandle {
    pub module_name: String,
    pub module_features: Vec<(String, String)>,
}

impl CoreHandle {
    /// The warning log after this handle asked for `feature`.
    pub open spec fn gated(&self, log: Seq<Seq<char>>, feature: Seq<char>) -> Seq<Seq<char>> {
        if declares_feature(features_view(self.module_features@), feature) {
            log
        } else {
            log.push(feature_warning(self.module_name@, feature))
        }
    }

    /// The warnings of `after` are those of `before` after a gate on `feature`.
    pub open spec fn logged<M>(&self, before: &SDCore<M>, after: &SDCore<M>, feature: Seq<char>) -> bool {
        strings_view(after.warnings@) == self.gated(strings_view(before.warnings@), feature)
    }

    /// The dispatches of `after` are those of `before` plus `event`, to every
    /// name of `candidates` but this handle's own.
    pub open spec fn sent<M>(&self, before: &SDCore<M>, after: &SDCore<M>, event: EventView, candidates: Seq<Seq<char>>) -> bool {
        dispatches_view(after.dispatched@) == dispatches_view(before.dispatched@).push(
            DispatchView { recipients: recipients_for(candidates, self.module_name@), event },
        )
    }

    /// Wraps the core with the system identity, which declares every feature.
    pub fn wrap() -> (r: CoreHandle)
        ensures
            r.module_name@ == system_module_name(),
            features_view(r.module_features@) == supported_features_spec(),
    {
        CoreHandle { module_name: "-system-".to_owned(), module_features: supported_features() }
    }

    /// Checks if the module declared this feature.
    pub fn check_for_feature(&self, feature: &str) -> (r: bool)
        ensures
            r == declares_feature(features_view(self.module_features@), feature@),
    {
        check_feature_list_for_feature(&self.module_features, feature)
    }

    /// Logs a warning where the module uses a feature it has not declared.
    pub fn required_feature<M>(&self, core: &mut SDCore<M>, feature: &str)
        ensures
            *final(core) == (SDCore { warnings: final(core).warnings, ..*old(core) }),
            self.logged(old(core), final(core), feature@),
    {
        let ghost w0 = core.warnings@;
        match warn_for_feature(self.module_name.as_str(), &self.module_features, feature) {
            Some(w) => {
                core.warnings.push(w);
                proof { lemma_strings_view_push(w0, w); }
            },
            None => {},
        }
    }

    /// A handle for the module registered at index `module`.
    pub fn clone_for<M>(&self, core: &SDCore<M>, module: usize) -> (r: CoreHandle)
        requires
            module < core.module_manager.modules@.len(),
        ensures
            r.module_name@ == core.module_manager.modules@[module as int].metadata.name@,
            features_view(r.module_features@)
                == features_view(core.module_manager.modules@[module as int].metadata.used_features@),
    {
        let meta = &core.module_manager.modules[module].metadata;
        CoreHandle { module_name: copy_string(&meta.name), module_features: copy_features(&meta.used_features) }
    }

    /// The device core, for modules that declared the `core` feature.
    pub fn device_core<'a, M>(&self, core: &'a mut SDCore<M>) -> (r: &'a mut SDCore<M>)
        ensures
            *r == (SDCore { warnings: r.warnings, ..*old(core) }),
            self.logged(old(core), r, "core"@),
            *final(core) == *final(r),
    {
        self.required_feature(core, "core");
        core
    }

    /// The device configuration, for modules that declared `config`.
    pub fn config<'a, M>(&self, core: &'a mut SDCore<M>) -> (r: &'a mut DeviceConfig)
        ensures
            *r == old(core).device_config,
            self.logged(old(core), final(core), "config"@),
            *final(core) == (SDCore { device_config: *final(r), warnings: final(core).warnings, ..*old(core) }),
    {
        self.required_feature(core, "config");
        &mut core.device_config
    }

    /// The module registry, for modules that declared `module_manager`.
    pub fn module_manager<'a, M>(&self, core: &'a mut SDCore<M>) -> (r: &'a mut ModuleManager<M>)
        ensures
            *r == old(core).module_manager,
            self.logged(old(core), final(core), "module_manager"@),
            *final(core) == (SDCore { module_manager: *final(r), warnings: final(core).warnings, ..*old(core) }),
    {
        self.required_feature(core, "module_manager");
        &mut core.module_manager
    }

    /// The event queues of the IPC clients, for modules that declared
    /// `socket_api`.
    pub fn socket_manager<'a, M>(&self, core: &'a mut SDCore<M>) -> (r: &'a mut SocketManager)
        ensures
            *r == old(core).socket_manager,
            self.logged(old(core), final(core), "socket_api"@),
            *final(core) == (SDCore { socket_manager: *final(r), warnings: final(core).warnings, ..*old(core) }),
    {
        self.required_feature(core, "socket_api");
        &mut core.socket_manager
    }

    /// The panel stack itself, for modules that declared `core`.
    pub fn current_stack<'a, M>(&self, core: &'a mut SDCore<M>) -> (r: &'a mut Vec<ButtonPanel>)
        ensures
            *r == old(core).current_stack,
            self.logged(old(core), final(core), "core"@),
            *final(core) == (SDCore { current_stack: *final(r), warnings: final(core).warnings, ..*old(core) }),
    {
        self.required_feature(core, "core");
        &mut core.current_stack
    }

    /// The values of a component with the path of each: its name.
    pub fn get_component_values_with_paths<M: SDModule>(&self, core: &mut SDCore<M>, key: u8, name: &str) -> (r: Option<Vec<UIPathValue>>)
        ensures
            *final(core) == (SDCore { warnings: final(core).warnings, ..*old(core) }),
            self.logged(old(core), final(core), "core_methods"@),
            r is Some == (edit_allowed(old(core), key, name@, true) && has_owner(old(core), name@)),
            r is Some ==> forall|i: int| 0 <= i < r.unwrap()@.len() ==> #[trigger] r.unwrap()@[i].path@ == r.unwrap()@[i].value.name@,
            r is Some ==> path_values_view(r.unwrap()@)
                == owner_module(old(core), name@).values_of(button_at(old(core), key), name@),
    {
        match self.get_component_values(core, key, name) {
            Some(values) => Some(with_name_paths(values)),
            None => None,
        }
    }

    /// Queues an event for every listed module except the caller itself.
    pub fn send_core_event_to_modules<M>(&self, core: &mut SDCore<M>, event: SDCoreEvent, modules: Vec<String>)
        ensures
            *final(core) == (SDCore { dispatched: final(core).dispatched, ..*old(core) }),
            self.sent(old(core), final(core), event@, strings_view(modules@)),
            forall|i: int| 0 <= i < final(core).dispatched@.last().recipients@.len()
                ==> #[trigger] final(core).dispatched@.last().recipients@[i]@ != self.module_name@,
    {
        let recipients = filter_recipients(&modules, &self.module_name);
        proof { lemma_no_echo(strings_view(modules@), self.module_name@); }
        let ghost d0 = core.dispatched@;
        let d = Dispatch { recipients, event };
        core.dispatched.push(d);
        proof {
            lemma_dispatches_view_push(d0, d);
            assert forall|i: int| 0 <= i < d.recipients@.len() implies #[trigger] d.recipients@[i]@ != self.module_name@ by {
                assert(strings_view(d.recipients@)[i] == d.recipients@[i]@);
            }
        }
    }

    /// Queues an event for every registered module except the caller.
    fn broadcast_event<M>(&self, core: &mut SDCore<M>, event: SDCoreEvent)
        ensures
            *final(core) == (SDCore { dispatched: final(core).dispatched, ..*old(core) }),
            self.sent(old(core), final(core), event@, old(core).module_names()),
    {
        let names = core.module_manager.get_module_list();
        self.send_core_event_to_modules(core, event, names);
    }

    /// A copy of the button at `key` on the current screen.
    pub fn get_button<M>(&self, core: &mut SDCore<M>, key: u8) -> (r: Option<Button>)
        ensures
            *final(core) == (SDCore { warnings: final(core).warnings, ..*old(core) }),
            self.logged(old(core), final(core), "core_methods"@),
            match r {
                Some(b) => top_button(old(core).stack(), key) == Some(b@),
                None => top_button(old(core).stack(), key) is None,
            },
    {
        self.required_feature(core, "core_methods");
        peek_button(core, key)
    }

    /// Sets a button at `key` on the current screen. Fails only where the
    /// stack is empty.
    pub fn set_button<M>(&self, core: &mut SDCore<M>, key: u8, button: Button) -> (r: bool)
        ensures
            same_device(old(core), final(core)),
            self.logged(old(core), final(core), "core_methods"@),
            r == (old(core).stack().len() > 0),
            r ==> {
                &&& final(core).stack() == with_button(old(core).stack(), key, button@)
                &&& self.sent(old(core), final(core), set_event(old(core).stack(), key, button@), old(core).module_names())
                &&& final(core).redraw_pending
            },
            !r ==> {
                &&& final(core).current_stack == old(core).current_stack
                &&& final(core).dispatched == old(core).dispatched
                &&& final(core).redraw_pending == old(core).redraw_pending
            },
    {
        self.required_feature(core, "core_methods");
        if core.current_stack.len() == 0 {
            return false;
        }
        let copy = button_to_raw(&button);
        let previous = put_button(core, key, button);
        match previous {
            Some(p) => self.broadcast_event(core, SDCoreEvent::ButtonUpdated { key, new_button: copy, old_button: p }),
            None => self.broadcast_event(core, SDCoreEvent::ButtonAdded { key, added_button: copy }),
        }
        core.mark_for_redraw();
        true
    }

    /// Clears the button at `key` on the current screen. Fails where there
    /// is none.
    pub fn clear_button<M>(&self, core: &mut SDCore<M>, key: u8) -> (r: bool)
        ensures
            same_device(old(core), final(core)),
            self.logged(old(core), final(core), "core_methods"@),
            r == (top_button(old(core).stack(), key) is Some),
            r ==> {
                &&& final(core).stack() == without_button(old(core).stack(), key)
                &&& self.sent(old(core), final(core), EventView::ButtonDeleted {
                    key,
                    deleted_button: top_button(old(core).stack(), key).unwrap(),
                }, old(core).module_names())
                &&& final(core).redraw_pending
            },
            !r ==> {
                &&& final(core).current_stack == old(core).current_stack
                &&& final(core).dispatched == old(core).dispatched
                &&& final(core).redraw_pending == old(core).redraw_pending
            },
    {
        self.required_feature(core, "core_methods");
        if core.current_stack.len() == 0 {
            return false;
        }
        let n = core.current_stack.len();
        proof { lemma_panels_view_drop_last(core.current_stack@); }
        if core.current_stack[n - 1].get_button(key).is_none() {
            return false;
        }
        match take_button(core, key) {
            Some(b) => {
                self.broadcast_event(core, SDCoreEvent::ButtonDeleted { key, deleted_button: b });
                core.mark_for_redraw();
                true
            },
            None => false,
        }
    }

    /// Has the owning module add a component to the button at `key`. Fails
    /// where there is no such button, the button already has the component,
    /// or no module owns a component of that name.
    #[verifier::rlimit(100)]
    pub fn add_component<M: SDModule>(&self, core: &mut SDCore<M>, key: u8, name: &str) -> (r: bool)
        ensures
            same_device(old(core), final(core)),
            self.logged(old(core), final(core), "core_methods"@),
            r == (edit_allowed(old(core), key, name@, false) && has_owner(old(core), name@)),
            r ==> final(core).redraw_pending && rewritten_to(self, old(core), final(core), key,
                owner_module(old(core), name@).added(button_at(old(core), key), name@)),
            !r ==> {
                &&& final(core).current_stack == old(core).current_stack
                &&& final(core).dispatched == old(core).dispatched
                &&& final(core).redraw_pending == old(core).redraw_pending
            },
    {
        self.edit_component(core, key, name, ComponentEdit::Add)
    }

    /// Has the owning module remove a component from the button at `key`.
    /// Fails where there is no such button, the button lacks the component,
    /// or no module owns a component of that name.
    #[verifier::rlimit(100)]
    pub fn remove_component<M: SDModule>(&self, core: &mut SDCore<M>, key: u8, name: &str) -> (r: bool)
        ensures
            same_device(old(core), final(core)),
            self.logged(old(core), final(core), "core_methods"@),
            r == (edit_allowed(old(core), key, name@, true) && has_owner(old(core), name@)),
            r ==> final(core).redraw_pending && rewritten_to(self, old(core), final(core), key,
                owner_module(old(core), name@).removed(button_at(old(core), key), name@)),
            !r ==> {
                &&& final(core).current_stack == old(core).current_stack
                &&& final(core).dispatched == old(core).dispatched
                &&& final(core).redraw_pending == old(core).redraw_pending
            },
    {
        self.edit_component(core, key, name, ComponentEdit::Remove)
    }

    /// Has the owning module write new values into a component of the
    /// button at `key`. Fails as [`Self::remove_component`] does.
    #[verifier::rlimit(100)]
    pub fn set_component_value<M: SDModule>(&self, core: &mut SDCore<M>, key: u8, name: &str, value: Vec<UIValue>) -> (r: bool)
        ensures
            same_device(old(core), final(core)),
            self.logged(old(core), final(core), "core_methods"@),
            r == (edit_allowed(old(core), key, name@, true) && has_owner(old(core), name@)),
            r ==> final(core).redraw_pending && rewritten_to(self, old(core), final(core), key,
                owner_module(old(core), name@).with_values(button_at(old(core), key), name@, values_view(value@))),
            !r ==> {
                &&& final(core).current_stack == old(core).current_stack
                &&& final(core).dispatched == old(core).dispatched
                &&& final(core).redraw_pending == old(core).redraw_pending
            },
    {
        self.edit_component(core, key, name, ComponentEdit::SetValues(value))
    }

    #[verifier::rlimit(100)]
    fn edit_component<M: SDModule>(&self, core: &mut SDCore<M>, key: u8, name: &str, edit: ComponentEdit) -> (r: bool)
        ensures
            same_device(old(core), final(core)),
            self.logged(old(core), final(core), "core_methods"@),
            r == (edit_allowed(old(core), key, name@, !(edit is Add)) && has_owner(old(core), name@)),
            r ==> final(core).redraw_pending && rewritten_to(self, old(core), final(core), key,
                edit_effect(old(core), key, name@, edit)),
            !r ==> {
                &&& final(core).current_stack == old(core).current_stack
                &&& final(core).dispatched == old(core).dispatched
                &&& final(core).redraw_pending == old(core).redraw_pending
            },
    {
        self.required_feature(core, "core_methods");
        let present = match edit { ComponentEdit::Add => false, _ => true };
        assert(core.module_manager == old(core).module_manager);
        assert(core.stack() == old(core).stack());
        let m = match owner_for_edit(core, key, name, present) {
            Some(m) => m,
            None => return false,
        };
        let ghost e0 = edit;
        let mut button = peek_button(core, key).unwrap();
        let ghost b0 = button@;
        assert(b0 == button_at(old(core), key));
        let previous = button_to_raw(&button);
        let module = &core.module_manager.modules[m].module;
        assert(*module == owner_module(old(core), name@));
        match edit {
            ComponentEdit::Add => module.add_component(&mut button, name),
            ComponentEdit::Remove => module.remove_component(&mut button, name),
            ComponentEdit::SetValues(value) => module.set_component_value(&mut button, name, value),
        }
        assert(button@ == edit_effect(old(core), key, name@, e0));
        let copy = button_to_raw(&button);
        let ghost nb = button@;
        put_button(core, key, button);
        self.broadcast_event(core, SDCoreEvent::ButtonUpdated { key, new_button: copy, old_button: previous });
        core.mark_for_redraw();
        assert(nb == edit_effect(old(core), key, name@, e0));
        true
    }

    /// The values of a component of the button at `key`, as its owning
    /// module reports them. `None` where there is no such button, the button
    /// lacks the component, or no module owns it.
    pub fn get_component_values<M: SDModule>(&self, core: &mut SDCore<M>, key: u8, name: &str) -> (r: Option<Vec<UIValue>>)
        ensures
            *final(core) == (SDCore { warnings: final(core).warnings, ..*old(core) }),
            self.logged(old(core), final(core), "core_methods"@),
            r is Some == (edit_allowed(old(core), key, name@, true) && has_owner(old(core), name@)),
            r is Some ==> values_view(r.unwrap()@)
                == owner_module(old(core), name@).values_of(button_at(old(core), key), name@),
    {
        self.required_feature(core, "core_methods");
        assert(core.module_manager == old(core).module_manager);
        assert(core.stack() == old(core).stack());
        values_of(core, key, name)
    }

    /// Reads the values of a component from its owning module, applies a
    /// path edit to them, and writes the edited values back through the
    /// module. Fails, changing nothing but the warning log, where there is no
    /// such button, component or owner, where the path is malformed, where
    /// the edit is refused, or where the module reports no values.
    #[verifier::rlimit(100)]
    fn edit_component_value<M: SDModule>(&self, core: &mut SDCore<M>, key: u8, name: &str, path: &str, edit: PathEdit) -> (r: bool)
        ensures
            same_device(old(core), final(core)),
            self.logged(old(core), final(core), "core_methods"@),
            r == path_edit_result(old(core), key, name@, path@, edit_view(&edit)) is Some,
            path_edit_done(self, old(core), final(core), key, name@, path@, edit_view(&edit)),
    {
        let ghost res = path_edit_result(old(core), key, name@, path@, edit_view(&edit));
        let values = values_of(core, key, name);
        let parsed = parse_path(path);
        match (values, parsed) {
            (Some(v), Some(p)) => {
                let ghost vv = values_view(v@);
                let ghost pv = path_view(p@);
                assert(is_path_text(path@));
                let (changes, ok) = change_from_path(&p, v, &edit);
                if ok && changes.len() > 0 {
                    let ghost t = values_view(changes@);
                    assert(res == Some(t));
                    let r = self.edit_component(core, key, name, ComponentEdit::SetValues(changes));
                    return r;
                }
                assert(res is None);
            },
            (None, _) => {
                assert(res is None);
            },
            (_, None) => {
                assert(res is None);
            },
        }
        self.required_feature(core, "core_methods");
        false
    }

    /// Appends a new element, made from the array's template, to the array
    /// at `path` in the values of a component; see [`Self::edit_component_value`].
    #[verifier::rlimit(100)]
    pub fn add_element_component_value<M: SDModule>(&self, core: &mut SDCore<M>, key: u8, name: &str, path: &str) -> (r: bool)
        ensures
            same_device(old(core), final(core)),
            self.logged(old(core), final(core), "core_methods"@),
            r == path_edit_result(old(core), key, name@, path@, EditView::ArrayAdd) is Some,
            path_edit_done(self, old(core), final(core), key, name@, path@, EditView::ArrayAdd),
    {
        self.edit_component_value(core, key, name, path, PathEdit::ArrayAdd)
    }

    /// Removes element `index` of the array at `path` in the values of a
    /// component; see [`Self::edit_component_value`].
    #[verifier::rlimit(100)]
    pub fn remove_element_component_value<M: SDModule>(&self, core: &mut SDCore<M>, key: u8, name: &str, path: &str, index: usize) -> (r: bool)
        ensures
            same_device(old(core), final(core)),
            self.logged(old(core), final(core), "core_methods"@),
            r == path_edit_result(old(core), key, name@, path@, EditView::ArrayRemove(index)) is Some,
            path_edit_done(self, old(core), final(core), key, name@, path@, EditView::ArrayRemove(index)),
    {
        self.edit_component_value(core, key, name, path, PathEdit::ArrayRemove(index))
    }

    /// Sets the value at the path of `value` in the values of a component;
    /// see [`Self::edit_component_value`].
    #[verifier::rlimit(100)]
    pub fn set_component_value_by_path<M: SDModule>(&self, core: &mut SDCore<M>, key: u8, name: &str, value: UIPathValue) -> (r: bool)
        ensures
            same_device(old(core), final(core)),
            self.logged(old(core), final(core), "core_methods"@),
            r == path_edit_result(old(core), key, name@, value.path@, EditView::SetValue(value_view(&value.value))) is Some,
            path_edit_done(self, old(core), final(core), key, name@, value.path@, EditView::SetValue(value_view(&value.value))),
    {
        let UIPathValue { path, value } = value;
        self.edit_component_value(core, key, name, path.as_str(), PathEdit::SetValue(value))
    }

    /// Builds a new button from `reference`: every module that owns one of
    /// its components translates its own state into the new button, once.
    /// The result is then set at `key` as [`Self::set_button`] does.
    #[verifier::rlimit(100)]
    pub fn paste_button<M: SDModule>(&self, core: &mut SDCore<M>, key: u8, reference: &Button) -> (r: bool)
        requires
            old(core).module_manager.wf(),
        ensures
            same_device(old(core), final(core)),
            self.logged(old(core), final(core), "core_methods"@),
            r == (old(core).stack().len() > 0),
            r ==> {
                let nb = pasted_from(&old(core).module_manager,
                    old(core).module_manager.declared_owners(names_of(reference@)), reference@);
                &&& final(core).stack() == with_button(old(core).stack(), key, nb)
                &&& self.sent(old(core), final(core), set_event(old(core).stack(), key, nb), old(core).module_names())
                &&& final(core).redraw_pending
            },
            !r ==> {
                &&& final(core).current_stack == old(core).current_stack
                &&& final(core).dispatched == old(core).dispatched
                &&& final(core).redraw_pending == old(core).redraw_pending
            },
    {
        let mut new_button = Button::new();
        let names = reference.component_names();
        let owners = core.module_manager.get_modules_for_declared_components(&names);
        let mut i: usize = 0;
        assert(owners@.subrange(0, 0) =~= Seq::<usize>::empty());
        while i < owners.len()
            invariant
                i <= owners@.len(),
                forall|j: int| 0 <= j < owners@.len() ==> owners@[j] < core.module_manager.modules@.len(),
                new_button@ == pasted_from(&core.module_manager, owners@.subrange(0, i as int), reference@),
            decreases owners@.len() - i,
        {
            core.module_manager.modules[owners[i]].module.paste_component(reference, &mut new_button);
            assert(owners@.subrange(0, i + 1).drop_last() =~= owners@.subrange(0, i as int));
            i += 1;
        }
        assert(owners@.subrange(0, i as int) =~= owners@);
        self.set_button(core, key, new_button)
    }

    /// Tells every module that a key went down.
    pub fn button_down<M>(&self, core: &mut SDCore<M>, key: u8)
        ensures
            same_device(old(core), final(core)),
            final(core).current_stack == old(core).current_stack,
            final(core).redraw_pending == old(core).redraw_pending,
            self.logged(old(core), final(core), "core_methods"@),
            self.sent(old(core), final(core), EventView::ButtonDown { key }, old(core).module_names()),
    {
        self.required_feature(core, "core_methods");
        self.broadcast_event(core, SDCoreEvent::ButtonDown { key });
    }

    /// Tells every module that a key went up, then triggers the action of
    /// the button at that key.
    pub fn button_up<M>(&self, core: &mut SDCore<M>, key: u8)
        ensures
            same_device(old(core), final(core)),
            final(core).current_stack == old(core).current_stack,
            exists|mid: SDCore<M>| {
                &&& #[trigger] self.sent(old(core), &mid, EventView::ButtonUp { key }, old(core).module_names())
                &&& self.logged(old(core), &mid, "core_methods"@)
                &&& same_device(old(core), &mid)
                &&& mid.current_stack == old(core).current_stack
                &&& mid.redraw_pending == old(core).redraw_pending
                &&& self.action_done(&mid, final(core), key)
            },
    {
        self.required_feature(core, "core_methods");
        self.broadcast_event(core, SDCoreEvent::ButtonUp { key });
        let ghost mid = *core;
        self.button_action(core, key);
        assert(self.sent(old(core), &mid, EventView::ButtonUp { key }, old(core).module_names()));
    }

    /// What [`Self::button_action`] does to a device: where the current
    /// screen has a button at `key`, a `ButtonAction` event goes to the
    /// modules that own one of its components, and a redraw is due.
    pub open spec fn action_done<M>(&self, before: &SDCore<M>, after: &SDCore<M>, key: u8) -> bool {
        &&& same_device(before, after)
        &&& after.current_stack == before.current_stack
        &&& self.logged(before, after, "core_methods"@)
        &&& match top_button(before.stack(), key) {
            Some(b) => {
                &&& exists|idx: Seq<usize>| #[trigger] before.module_manager.routes_to(names_of(b), idx)
                    && self.sent(before, after, EventView::ButtonAction { key, pressed_button: b },
                        idx.map_values(|i: usize| before.module_manager.names()[i as int]))
                &&& after.redraw_pending
            },
            None => after.dispatched == before.dispatched && after.redraw_pending == before.redraw_pending,
        }
    }

    /// Tells the modules that own a component of the button at `key` that
    /// its action was triggered.
    pub fn button_action<M>(&self, core: &mut SDCore<M>, key: u8)
        ensures
            self.action_done(old(core), final(core), key),
    {
        let ghost before = *core;
        self.required_feature(core, "core_methods");
        match peek_button(core, key) {
            Some(b) => {
                let names = b.component_names();
                let idx = core.module_manager.get_modules_for_components(&names);
                let recipients = core.module_manager.names_at(&idx);
                let ghost iv = idx@;
                self.send_core_event_to_modules(core, SDCoreEvent::ButtonAction { key, pressed_button: b }, recipients);
                core.mark_for_redraw();
                assert(before.module_manager.routes_to(names_of(b@), iv));
            },
            None => {},
        }
    }

    /// Sets the brightness of the device, from 0 to 100. Fails, changing
    /// nothing, on a larger value.
    pub fn set_brightness<M>(&self, core: &mut SDCore<M>, brightness: u8) -> (r: bool)
        ensures
            self.logged(old(core), final(core), "core_methods"@),
            r == (brightness <= 100),
            r ==> *final(core) == (SDCore {
                warnings: final(core).warnings,
                commands: final(core).commands,
                device_config: DeviceConfig { brightness, ..old(core).device_config },
                ..*old(core)
            }) && final(core).commands@ == old(core).commands@.push(DeviceCommand::SetBrightness(brightness)),
            !r ==> *final(core) == (SDCore { warnings: final(core).warnings, ..*old(core) }),
    {
        self.required_feature(core, "core_methods");
        if brightness > 100 {
            return false;
        }
        core.commands.push(DeviceCommand::SetBrightness(brightness));
        core.device_config.brightness = brightness;
        true
    }

    /// Commits the root panel to the device configuration so that it can be
    /// saved later; `now` is the time of the commit.
    pub fn commit_changes<M>(&self, core: &mut SDCore<M>, now: u64)
        requires
            old(core).stack().len() > 0,
        ensures
            self.logged(old(core), final(core), "core_methods"@),
            *final(core) == (SDCore {
                warnings: final(core).warnings,
                device_config: final(core).device_config,
                ..*old(core)
            }),
            final(core).device_config.layout is Some,
            final(core).device_config.layout.unwrap()@ == old(core).stack()[0],
            final(core).device_config.dirty_state,
            final(core).device_config.commit_time == Some(now),
            final(core).device_config.serial == old(core).device_config.serial,
            final(core).device_config.brightness == old(core).device_config.brightness,
    {
        let root = self.get_root_screen(core);
        core.device_config.layout = Some(root);
        core.device_config.dirty_state = true;
        core.device_config.commit_time = Some(now);
    }

    /// Copies of every panel of the stack, bottom first.
    pub fn get_stack<M>(&self, core: &mut SDCore<M>) -> (r: Vec<ButtonPanel>)
        ensures
            *final(core) == (SDCore { warnings: final(core).warnings, ..*old(core) }),
            self.logged(old(core), final(core), "core_methods"@),
            panels_view(r@) == old(core).stack(),
    {
        self.required_feature(core, "core_methods");
        let mut r: Vec<ButtonPanel> = Vec::new();
        let mut i: usize = 0;
        while i < core.current_stack.len()
            invariant
                i <= core.current_stack@.len(),
                panels_view(r@) == core.stack().subrange(0, i as int),
            decreases core.current_stack@.len() - i,
        {
            let ghost r0 = r@;
            let p = panel_to_raw(&core.current_stack[i]);
            r.push(p);
            proof { lemma_panels_view_push(r0, p); }
            assert(panels_view(r@) =~= core.stack().subrange(0, i + 1));
            i += 1;
        }
        assert(core.stack().subrange(0, i as int) =~= core.stack());
        r
    }

    /// A copy of the panel on top of the stack.
    pub fn get_current_screen<M>(&self, core: &mut SDCore<M>) -> (r: Option<ButtonPanel>)
        ensures
            *final(core) == (SDCore { warnings: final(core).warnings, ..*old(core) }),
            self.logged(old(core), final(core), "core_methods"@),
            match r {
                Some(p) => old(core).stack().len() > 0 && p@ == old(core).stack().last(),
                None => old(core).stack().len() == 0,
            },
    {
        self.required_feature(core, "core_methods");
        let n = core.current_stack.len();
        if n > 0 {
            Some(panel_to_raw(&core.current_stack[n - 1]))
        } else {
            None
        }
    }

    /// A copy of the root panel, the bottom of the stack.
    pub fn get_root_screen<M>(&self, core: &mut SDCore<M>) -> (r: ButtonPanel)
        requires
            old(core).stack().len() > 0,
        ensures
            *final(core) == (SDCore { warnings: final(core).warnings, ..*old(core) }),
            self.logged(old(core), final(core), "core_methods"@),
            r@ == old(core).stack()[0],
    {
        self.required_feature(core, "core_methods");
        panel_to_raw(&core.current_stack[0])
    }

    /// Pushes a panel onto the stack; it becomes the screen shown.
    pub fn push_screen<M>(&self, core: &mut SDCore<M>, screen: ButtonPanel)
        ensures
            same_device(old(core), final(core)),
            final(core).stack() == old(core).stack().push(screen@),
            self.logged(old(core), final(core), "core_methods"@),
            self.sent(old(core), final(core), EventView::PanelPushed { new_panel: screen@ }, old(core).module_names()),
            final(core).redraw_pending,
    {
        self.required_feature(core, "core_methods");
        let copy = panel_to_raw(&screen);
        let ghost s0 = core.current_stack@;
        let ghost sv = screen;
        core.current_stack.push(screen);
        proof { lemma_panels_view_push(s0, sv); }
        self.broadcast_event(core, SDCoreEvent::PanelPushed { new_panel: copy });
        core.mark_for_redraw();
    }

    fn pop_top<M>(&self, core: &mut SDCore<M>)
        requires
            old(core).stack().len() > 0,
        ensures
            same_device(old(core), final(core)),
            final(core).warnings == old(core).warnings,
            final(core).stack() == old(core).stack().drop_last(),
            self.sent(old(core), final(core), EventView::PanelPopped { popped_panel: old(core).stack().last() }, old(core).module_names()),
            final(core).redraw_pending,
    {
        let ghost s0 = core.current_stack@;
        proof { lemma_panels_view_drop_last(s0); }
        match core.current_stack.pop() {
            Some(old_panel) => {
                self.broadcast_event(core, SDCoreEvent::PanelPopped { popped_panel: old_panel });
            },
            None => {},
        }
        core.mark_for_redraw();
    }

    /// Pops the top panel, unless it is the root: a stack of one panel is
    /// left as it is.
    pub fn pop_screen<M>(&self, core: &mut SDCore<M>)
        ensures
            same_device(old(core), final(core)),
            self.logged(old(core), final(core), "core_methods"@),
            if old(core).stack().len() > 1 {
                &&& final(core).stack() == old(core).stack().drop_last()
                &&& self.sent(old(core), final(core), EventView::PanelPopped { popped_panel: old(core).stack().last() }, old(core).module_names())
                &&& final(core).redraw_pending
            } else {
                &&& final(core).stack() == old(core).stack()
                &&& final(core).dispatched == old(core).dispatched
                &&& final(core).redraw_pending == old(core).redraw_pending
            },
    {
        self.required_feature(core, "core_methods");
        if core.current_stack.len() > 1 {
            self.pop_top(core);
        }
    }

    /// Pops the top panel even where it is the root.
    pub fn forcibly_pop_screen<M>(&self, core: &mut SDCore<M>)
        ensures
            same_device(old(core), final(core)),
            self.logged(old(core), final(core), "core_methods"@),
            final(core).redraw_pending,
            if old(core).stack().len() > 0 {
                &&& final(core).stack() == old(core).stack().drop_last()
                &&& self.sent(old(core), final(core), EventView::PanelPopped { popped_panel: old(core).stack().last() }, old(core).module_names())
            } else {
                &&& final(core).stack() == old(core).stack()
                &&& final(core).dispatched == old(core).dispatched
            },
    {
        self.required_feature(core, "core_methods");
        if core.current_stack.len() > 0 {
            self.pop_top(core);
        } else {
            core.mark_for_redraw();
        }
    }

    /// Replaces the top panel with another one.
    pub fn replace_screen<M>(&self, core: &mut SDCore<M>, screen: ButtonPanel)
        ensures
            same_device(old(core), final(core)),
            self.logged(old(core), final(core), "core_methods"@),
            final(core).redraw_pending,
            final(core).stack() == (if old(core).stack().len() > 0 { old(core).stack().drop_last() } else { old(core).stack() }).push(screen@),
            self.sent(old(core), final(core), EventView::PanelReplaced {
                old_panel: if old(core).stack().len() > 0 { Some(old(core).stack().last()) } else { None },
                new_panel: screen@,
            }, old(core).module_names()),
    {
        self.required_feature(core, "core_methods");
        let copy = panel_to_raw(&screen);
        let ghost s0 = core.current_stack@;
        let ghost sv = screen;
        proof { if s0.len() > 0 { lemma_panels_view_drop_last(s0); } }
        let old_panel = core.current_stack.pop();
        let ghost s1 = core.current_stack@;
        core.current_stack.push(screen);
        proof { lemma_panels_view_push(s1, sv); }
        self.broadcast_event(core, SDCoreEvent::PanelReplaced { old_panel, new_panel: copy });
        core.mark_for_redraw();
    }

    /// Clears the stack and makes `panel` its only panel.
    pub fn reset_stack<M>(&self, core: &mut SDCore<M>, panel: ButtonPanel)
        ensures
            same_device(old(core), final(core)),
            self.logged(old(core), final(core), "core_methods"@),
            final(core).redraw_pending,
            final(core).stack() == seq![panel@],
            self.sent(old(core), final(core), EventView::StackReset { new_panel: panel@ }, old(core).module_names()),
    {
        self.required_feature(core, "core_methods");
        let copy = panel_to_raw(&panel);
        let ghost pv = panel;
        core.current_stack.clear();
        core.current_stack.push(panel);
        assert(core.stack() =~= seq![pv@]);
        self.broadcast_event(core, SDCoreEvent::StackReset { new_panel: copy });
        core.mark_for_redraw();
    }

    /// Pops panels until only the root remains.
    pub fn drop_stack_to_root<M>(&self, core: &mut SDCore<M>)
        ensures
            same_device(old(core), final(core)),
            self.logged(old(core), final(core), "core_methods"@),
            final(core).dispatched == old(core).dispatched,
            if old(core).stack().len() > 1 {
                &&& final(core).stack() == seq![old(core).stack()[0]]
                &&& final(core).redraw_pending
            } else {
                &&& final(core).stack() == old(core).stack()
                &&& final(core).redraw_pending == old(core).redraw_pending
            },
    {
        self.required_feature(core, "core_methods");
        if core.current_stack.len() > 1 {
            core.current_stack.truncate(1);
            assert(core.stack() =~= seq![old(core).stack()[0]]);
            core.mark_for_redraw();
        }
    }
}

} // verus!
