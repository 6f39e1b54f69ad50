use std::cell::RefCell;
use streamduck_core::device::{DeviceCommand, SDCore, SDCoreEvent};
use streamduck_core::methods::{check_feature_list_for_feature, current_screen_buttons, warn_for_feature, CoreHandle};
use streamduck_core::modules::{ComponentDefinition, ModuleManager, PluginMetadata, RegistryError, SDModule};
use streamduck_core::panel::{Button, ButtonPanel};
use streamduck_core::socket::SocketManager;
use streamduck_core::value::{UIFieldValue, UIPathValue, UIValue};

fn value(name: &str, v: UIFieldValue) -> UIValue {
    UIValue { name: name.to_string(), display_name: name.to_string(), description: String::new(), read_only: false, value: v }
}

/// `{a: int = 1, arr: [int] = [10, 20, 30]}`
fn sample_values() -> Vec<UIValue> {
    let item = |i: i64| value("item", UIFieldValue::Integer(i));
    vec![
        value("a", UIFieldValue::Integer(1)),
        value("arr", UIFieldValue::Array(Box::new(item(0)), vec![item(10), item(20), item(30)])),
    ]
}

/// A summary of values: `a` and the elements of `arr`.
fn summary(values: &[UIValue]) -> String {
    let mut out = vec![];
    for v in values {
        match &v.value {
            UIFieldValue::Integer(i) => out.push(format!("{}={}", v.name, i)),
            UIFieldValue::Array(_, es) => {
                let items: Vec<String> = es
                    .iter()
                    .map(|e| match e.value {
                        UIFieldValue::Integer(i) => i.to_string(),
                        _ => "?".to_string(),
                    })
                    .collect();
                out.push(format!("{}=[{}]", v.name, items.join(",")));
            }
            _ => out.push(v.name.clone()),
        }
    }
    out.join(" ")
}

struct Mock {
    owned: Vec<&'static str>,
    calls: RefCell<Vec<String>>,
}

impl SDModule for Mock {
    fn add_component(&self, button: &mut Button, name: &str) {
        self.calls.borrow_mut().push(format!("add {}", name));
        button.set_component(name.to_string(), "{}".to_string());
    }

    fn remove_component(&self, button: &mut Button, name: &str) {
        self.calls.borrow_mut().push(format!("remove {}", name));
        button.remove_component(name);
    }

    fn component_values(&self, _button: &Button, name: &str) -> Vec<UIValue> {
        self.calls.borrow_mut().push(format!("values {}", name));
        sample_values()
    }

    fn set_component_value(&self, button: &mut Button, name: &str, values: Vec<UIValue>) {
        self.calls.borrow_mut().push(format!("set {}", name));
        button.set_component(name.to_string(), summary(&values));
    }

    fn paste_component(&self, reference: &Button, new_button: &mut Button) {
        self.calls.borrow_mut().push("paste".to_string());
        for name in reference.component_names() {
            if self.owned.contains(&name.as_str()) {
                let state = reference.component_state(&name).unwrap();
                new_button.set_component(name, state);
            }
        }
    }
}

fn features(names: &[&str]) -> Vec<(String, String)> {
    names.iter().map(|n| (n.to_string(), "0.2".to_string())).collect()
}

fn metadata(name: &str, feats: &[&str]) -> PluginMetadata {
    PluginMetadata {
        name: name.to_string(),
        author: "someone".to_string(),
        description: "a module".to_string(),
        version: "1.0".to_string(),
        used_features: features(feats),
    }
}

fn defs(names: &[&str]) -> Vec<(String, ComponentDefinition)> {
    names
        .iter()
        .map(|n| (n.to_string(), ComponentDefinition { display_name: n.to_string(), description: String::new() }))
        .collect()
}

fn mock(owned: Vec<&'static str>) -> Mock {
    Mock { owned, calls: RefCell::new(vec![]) }
}

/// A device with modules "texts" (owns "text"), "timers" (owns "timer")
/// and "other" (owns "clock").
fn device() -> SDCore<Mock> {
    let mut mm = ModuleManager::new();
    assert!(mm.add_module(mock(vec!["text"]), metadata("texts", &["core_methods"]), defs(&["text"])).is_ok());
    assert!(mm.add_module(mock(vec!["timer"]), metadata("timers", &["core_methods", "rendering"]), defs(&["timer"])).is_ok());
    assert!(mm.add_module(mock(vec!["clock"]), metadata("other", &["core_methods"]), defs(&["clock"])).is_ok());
    SDCore::new("X".to_string(), 15, (72, 72), mm, SocketManager::new(16))
}

fn panel(name: &str) -> ButtonPanel {
    ButtonPanel::new(name.to_string())
}

#[test]
fn feature_list_lookup() {
    let f = features(&["core", "plugin_api"]);
    assert!(check_feature_list_for_feature(&f, "core"));
    assert!(check_feature_list_for_feature(&f, "plugin_api"));
    assert!(!check_feature_list_for_feature(&f, "core_methods"));
    assert!(!check_feature_list_for_feature(&vec![], "core"));
}

#[test]
fn feature_warning_text() {
    let f = features(&["plugin_api"]);
    assert_eq!(warn_for_feature("m", &f, "plugin_api"), None);
    let w = warn_for_feature("m", &f, "core_methods").unwrap();
    assert_eq!(
        w,
        "Module 'm' is using unreported feature 'core_methods', please add the feature into plugin metadata to prevent any future crashes due to version incompatibility"
    );
}

#[test]
fn system_handle_declares_everything() {
    let h = CoreHandle::wrap();
    assert_eq!(h.module_name, "-system-");
    assert_eq!(h.module_features.len(), 11);
    assert!(h.check_for_feature("rendering"));
    assert!(h.check_for_feature("socket_api"));
    assert!(!h.check_for_feature("nonexistent"));
    let mut core = device();
    h.set_button(&mut core, 0, Button::new());
    assert!(core.warnings.is_empty());
}

#[test]
fn undeclared_feature_warns_once_and_proceeds() {
    let mut core = device();
    let h = CoreHandle { module_name: "plug".to_string(), module_features: features(&["plugin_api"]) };
    assert!(h.set_button(&mut core, 3, Button::new()));
    assert_eq!(core.warnings.len(), 1);
    assert!(core.warnings[0].contains("plug"));
    assert!(core.warnings[0].contains("core_methods"));
    assert!(core.current_stack[0].buttons.contains_key(&3));
}

#[test]
fn clone_for_takes_module_identity() {
    let core = device();
    let h = CoreHandle::wrap().clone_for(&core, 1);
    assert_eq!(h.module_name, "timers");
    assert!(h.check_for_feature("rendering"));
    assert!(!h.check_for_feature("config"));
}

#[test]
fn accessors_gate_their_feature() {
    let mut core = device();
    let h = CoreHandle { module_name: "plug".to_string(), module_features: features(&["config"]) };
    h.config(&mut core).brightness = 70;
    assert_eq!(core.device_config.brightness, 70);
    assert!(core.warnings.is_empty());
    assert_eq!(h.module_manager(&mut core).modules.len(), 3);
    assert_eq!(core.warnings.len(), 1);
    assert!(core.warnings[0].contains("module_manager"));
    assert_eq!(h.device_core(&mut core).key_count, 15);
    assert_eq!(core.warnings.len(), 2);
}

#[test]
fn events_skip_the_originating_module() {
    let mut core = device();
    let h = CoreHandle { module_name: "timers".to_string(), module_features: features(&["core_methods"]) };
    h.push_screen(&mut core, panel("second"));
    let d = core.dispatched.last().unwrap();
    assert_eq!(d.recipients, vec!["texts".to_string(), "other".to_string()]);
    assert!(matches!(d.event, SDCoreEvent::PanelPushed { .. }));
    h.button_down(&mut core, 2);
    let d = core.dispatched.last().unwrap();
    assert!(!d.recipients.contains(&"timers".to_string()));
    assert!(matches!(d.event, SDCoreEvent::ButtonDown { key: 2 }));
}

#[test]
fn push_then_pop_restores_stack() {
    let mut core = device();
    let h = CoreHandle::wrap();
    h.push_screen(&mut core, panel("second"));
    assert_eq!(core.current_stack.len(), 2);
    assert_eq!(core.current_stack[1].display_name, "second");
    h.pop_screen(&mut core);
    assert_eq!(core.current_stack.len(), 1);
    assert_eq!(core.current_stack[0].display_name, "Root");
    assert!(matches!(core.dispatched.last().unwrap().event, SDCoreEvent::PanelPopped { .. }));
}

#[test]
fn pop_single_panel_is_noop() {
    let mut core = device();
    let h = CoreHandle::wrap();
    core.redraw_pending = false;
    h.pop_screen(&mut core);
    assert_eq!(core.current_stack.len(), 1);
    assert!(core.dispatched.is_empty());
    assert!(!core.redraw_pending);
    h.forcibly_pop_screen(&mut core);
    assert_eq!(core.current_stack.len(), 0);
    assert!(core.redraw_pending);
    assert!(h.get_current_screen(&mut core).is_none());
    assert!(!h.set_button(&mut core, 0, Button::new()));
}

#[test]
fn drop_to_root_leaves_one() {
    let mut core = device();
    let h = CoreHandle::wrap();
    h.push_screen(&mut core, panel("a"));
    h.push_screen(&mut core, panel("b"));
    h.drop_stack_to_root(&mut core);
    let stack = h.get_stack(&mut core);
    assert_eq!(stack.len(), 1);
    assert_eq!(stack[0].display_name, "Root");
}

#[test]
fn replace_and_reset() {
    let mut core = device();
    let h = CoreHandle::wrap();
    h.replace_screen(&mut core, panel("new root"));
    assert_eq!(core.current_stack.len(), 1);
    assert_eq!(core.current_stack[0].display_name, "new root");
    match &core.dispatched.last().unwrap().event {
        SDCoreEvent::PanelReplaced { old_panel, new_panel } => {
            assert_eq!(old_panel.as_ref().unwrap().display_name, "Root");
            assert_eq!(new_panel.display_name, "new root");
        }
        _ => panic!("expected PanelReplaced"),
    }
    h.push_screen(&mut core, panel("a"));
    h.reset_stack(&mut core, panel("fresh"));
    assert_eq!(core.current_stack.len(), 1);
    assert_eq!(core.current_stack[0].display_name, "fresh");
    assert!(matches!(core.dispatched.last().unwrap().event, SDCoreEvent::StackReset { .. }));
    assert_eq!(h.get_root_screen(&mut core).display_name, "fresh");
}

#[test]
fn mutations_mark_for_redraw() {
    let mut core = device();
    let h = CoreHandle::wrap();
    core.redraw_pending = false;
    assert!(h.set_button(&mut core, 1, Button::new()));
    assert!(core.redraw_pending);
    core.redraw_pending = false;
    assert!(h.add_component(&mut core, 1, "text"));
    assert!(core.redraw_pending);
    core.redraw_pending = false;
    assert!(h.clear_button(&mut core, 1));
    assert!(core.redraw_pending);
    core.redraw_pending = false;
    h.push_screen(&mut core, panel("p"));
    assert!(core.redraw_pending);
}

#[test]
fn set_button_events() {
    let mut core = device();
    let h = CoreHandle::wrap();
    let mut b = Button::new();
    b.set_component("text".to_string(), "{\"t\":1}".to_string());
    assert!(h.set_button(&mut core, 4, b));
    assert!(matches!(core.dispatched.last().unwrap().event, SDCoreEvent::ButtonAdded { key: 4, .. }));
    assert!(h.set_button(&mut core, 4, Button::new()));
    match &core.dispatched.last().unwrap().event {
        SDCoreEvent::ButtonUpdated { key, new_button, old_button } => {
            assert_eq!(*key, 4);
            assert!(new_button.component_names().is_empty());
            assert_eq!(old_button.component_names(), vec!["text".to_string()]);
        }
        _ => panic!("expected ButtonUpdated"),
    }
    assert!(h.clear_button(&mut core, 4));
    assert!(matches!(core.dispatched.last().unwrap().event, SDCoreEvent::ButtonDeleted { key: 4, .. }));
    assert!(!h.clear_button(&mut core, 4));
    assert!(h.get_button(&mut core, 4).is_none());
}

#[test]
fn component_editing_goes_through_owner() {
    let mut core = device();
    let h = CoreHandle::wrap();
    assert!(!h.add_component(&mut core, 0, "text"));
    assert!(h.set_button(&mut core, 0, Button::new()));
    assert!(!h.add_component(&mut core, 0, "unknown"));
    assert!(h.add_component(&mut core, 0, "text"));
    assert!(!h.add_component(&mut core, 0, "text"));
    assert_eq!(core.module_manager.modules[0].module.calls.borrow().clone(), vec!["add text".to_string()]);
    assert!(h.get_button(&mut core, 0).unwrap().has_component("text"));
    assert!(h.get_component_values(&mut core, 0, "text").is_some());
    assert!(h.get_component_values(&mut core, 0, "timer").is_none());
    assert!(h.set_component_value(&mut core, 0, "text", vec![]));
    assert_eq!(h.get_button(&mut core, 0).unwrap().component_state("text").unwrap(), "");
    assert!(!h.remove_component(&mut core, 0, "timer"));
    assert!(h.remove_component(&mut core, 0, "text"));
    assert!(!h.get_button(&mut core, 0).unwrap().has_component("text"));
}

#[test]
fn paste_calls_each_owner_once() {
    let mut core = device();
    let h = CoreHandle::wrap();
    let mut a = Button::new();
    a.set_component("text".to_string(), "{\"text\":\"hi\"}".to_string());
    a.set_component("timer".to_string(), "{\"ms\":5}".to_string());
    assert!(h.paste_button(&mut core, 7, &a));
    let pasted = h.get_button(&mut core, 7).unwrap();
    assert_eq!(pasted.component_names(), vec!["text".to_string(), "timer".to_string()]);
    assert_eq!(pasted.component_state("timer").unwrap(), "{\"ms\":5}");
    let calls = |i: usize| core.module_manager.modules[i].module.calls.borrow().clone();
    assert_eq!(calls(0), vec!["paste".to_string()]);
    assert_eq!(calls(1), vec!["paste".to_string()]);
    assert!(calls(2).is_empty());
}

#[test]
fn button_action_routes_to_owners() {
    let mut core = device();
    let h = CoreHandle::wrap();
    let mut b = Button::new();
    b.set_component("timer".to_string(), "{}".to_string());
    h.set_button(&mut core, 5, b);
    core.redraw_pending = false;
    h.button_up(&mut core, 5);
    let n = core.dispatched.len();
    assert!(matches!(core.dispatched[n - 2].event, SDCoreEvent::ButtonUp { key: 5 }));
    assert!(matches!(core.dispatched[n - 1].event, SDCoreEvent::ButtonAction { key: 5, .. }));
    assert_eq!(core.dispatched[n - 1].recipients, vec!["timers".to_string()]);
    assert!(core.redraw_pending);
    let before = core.dispatched.len();
    h.button_action(&mut core, 9);
    assert_eq!(core.dispatched.len(), before);
}

#[test]
fn brightness_range() {
    let mut core = device();
    let h = CoreHandle::wrap();
    assert!(h.set_brightness(&mut core, 100));
    assert_eq!(core.device_config.brightness, 100);
    assert!(matches!(core.commands[0], DeviceCommand::SetBrightness(100)));
    assert!(!h.set_brightness(&mut core, 101));
    assert_eq!(core.device_config.brightness, 100);
    assert_eq!(core.commands.len(), 1);
}

#[test]
fn commit_stores_root_layout() {
    let mut core = device();
    let h = CoreHandle::wrap();
    h.set_button(&mut core, 0, Button::new());
    h.push_screen(&mut core, panel("top"));
    h.commit_changes(&mut core, 1234);
    let layout = core.device_config.layout.as_ref().unwrap();
    assert_eq!(layout.display_name, "Root");
    assert!(layout.buttons.contains_key(&0));
    assert!(core.device_config.dirty_state);
    assert_eq!(core.device_config.commit_time, Some(1234));
}

#[test]
fn registry_rules() {
    let mut mm: ModuleManager<Mock> = ModuleManager::new();
    assert!(mm.add_module(mock(vec![]), metadata("a", &[]), defs(&["x", "y"])).is_ok());
    assert!(mm.add_module(mock(vec![]), metadata("a", &[]), defs(&["x", "y"])).is_ok());
    assert_eq!(mm.modules.len(), 1);
    assert!(matches!(
        mm.add_module(mock(vec![]), metadata("b", &[]), defs(&["y"])),
        Err(RegistryError::ConflictingOwnership)
    ));
    assert!(matches!(
        mm.add_module(mock(vec![]), metadata("a", &["core"]), defs(&["x", "y"])),
        Err(RegistryError::ConflictingOwnership)
    ));
    assert!(matches!(
        mm.add_module(mock(vec![]), metadata("c", &[]), defs(&["z", "z"])),
        Err(RegistryError::ConflictingOwnership)
    ));
    assert!(mm.add_module(mock(vec![]), metadata("c", &["rendering"]), defs(&["z"])).is_ok());
    assert_eq!(mm.get_module_list(), vec!["a".to_string(), "c".to_string()]);
    let names = vec!["z".to_string(), "x".to_string(), "q".to_string()];
    assert_eq!(mm.get_modules_for_components(&names), vec![0, 1]);
    assert_eq!(mm.get_modules_for_rendering(&names), vec![1]);
    assert_eq!(mm.get_modules_for_declared_components(&names), vec![1, 0]);
    assert_eq!(mm.owner_of("y"), Some(0));
    assert_eq!(mm.modules_for_decoration(&names, &vec![], &vec![]), vec![1]);
    assert_eq!(mm.modules_for_decoration(&names, &vec!["c".to_string()], &vec![]), Vec::<usize>::new());
    assert_eq!(mm.modules_for_decoration(&names, &vec![], &vec!["c".to_string()]), Vec::<usize>::new());
    assert_eq!(mm.owner_of("q"), None);
}

#[test]
fn path_edits_through_the_owner() {
    let mut core = device();
    let h = CoreHandle::wrap();
    let mut b = Button::new();
    b.set_component("text".to_string(), "{}".to_string());
    h.set_button(&mut core, 2, b);
    let state = |core: &mut SDCore<Mock>| h.get_button(core, 2).unwrap().component_state("text").unwrap();
    assert!(h.remove_element_component_value(&mut core, 2, "text", "arr", 1));
    assert_eq!(state(&mut core), "a=1 arr=[10,30]");
    assert!(!h.remove_element_component_value(&mut core, 2, "text", "arr", 9));
    assert_eq!(state(&mut core), "a=1 arr=[10,30]");
    assert!(h.add_element_component_value(&mut core, 2, "text", "arr"));
    assert_eq!(state(&mut core), "a=1 arr=[10,20,30,0]");
    let set = UIPathValue { path: "arr[0]".to_string(), value: value("x", UIFieldValue::Integer(7)) };
    assert!(h.set_component_value_by_path(&mut core, 2, "text", set));
    assert_eq!(state(&mut core), "a=1 arr=[7,20,30]");
    assert!(!h.add_element_component_value(&mut core, 2, "text", "arr["));
    assert!(!h.add_element_component_value(&mut core, 2, "timer", "arr"));
    assert!(!h.add_element_component_value(&mut core, 3, "text", "arr"));
}

#[test]
fn stack_and_socket_accessors() {
    let mut core = device();
    let h = CoreHandle { module_name: "plug".to_string(), module_features: features(&["core"]) };
    h.current_stack(&mut core).push(panel("direct"));
    assert_eq!(core.current_stack.len(), 2);
    assert!(core.warnings.is_empty());
    let c = h.socket_manager(&mut core).open_connection();
    assert_eq!(c, 0);
    assert_eq!(core.warnings.len(), 1);
    assert!(core.warnings[0].contains("socket_api"));
}

#[test]
fn values_with_paths() {
    let mut core = device();
    let h = CoreHandle::wrap();
    let mut b = Button::new();
    b.set_component("text".to_string(), "{}".to_string());
    h.set_button(&mut core, 1, b);
    let v = h.get_component_values_with_paths(&mut core, 1, "text").unwrap();
    assert_eq!(v.len(), 2);
    assert_eq!(v[0].path, "a");
    assert_eq!(v[1].path, "arr");
    assert!(h.get_component_values_with_paths(&mut core, 1, "timer").is_none());
}

#[test]
fn screen_walk() {
    let mut core = device();
    let h = CoreHandle::wrap();
    let mut b = Button::new();
    b.set_component("text".to_string(), "{}".to_string());
    h.set_button(&mut core, 2, b);
    let keys = current_screen_buttons(&core).unwrap();
    assert_eq!(keys.len(), 15);
    assert!(keys[2].as_ref().unwrap().has_component("text"));
    assert!(keys[0].is_none());
    h.forcibly_pop_screen(&mut core);
    assert!(current_screen_buttons(&core).is_none());
}
