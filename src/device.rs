//! A device's state: its panel stack, its configuration, and the queues the
//! core fills for the outside (warnings, events to modules, device commands).
use vstd::prelude::*;
use crate::modules::ModuleManager;
use crate::socket::SocketManager;
use crate::panel::{Button, ButtonPanel, ButtonView, PanelView, panels_view, strings_view, copy_string};

verus! {

/// Events the core sends to modules.
pub enum SDCoreEvent {
    ButtonAdded { key: u8, added_button: Button },
    ButtonUpdated { key: u8, new_button: Button, old_button: Button },
    ButtonDeleted { key: u8, deleted_button: Button },
    ButtonDown { key: u8 },
    ButtonUp { key: u8 },
    ButtonAction { key: u8, pressed_button: Button },
    PanelPushed { new_panel: ButtonPanel },
    PanelPopped { popped_panel: ButtonPanel },
    PanelReplaced { old_panel: Option<ButtonPanel>, new_panel: ButtonPanel },
    StackReset { new_panel: ButtonPanel },
}

/// The abstract content of an event.
pub enum EventView {
    ButtonAdded { key: u8, added_button: ButtonView },
    ButtonUpdated { key: u8, new_button: ButtonView, old_button: ButtonView },
    ButtonDeleted { key: u8, deleted_button: ButtonView },
    ButtonDown { key: u8 },
    ButtonUp { key: u8 },
    ButtonAction { key: u8, pressed_button: ButtonView },
    PanelPushed { new_panel: PanelView },
    PanelPopped { popped_panel: PanelView },
    PanelReplaced { old_panel: Option<PanelView>, new_panel: PanelView },
    StackReset { new_panel: PanelView },
}

impl View for SDCoreEvent {
    type V = EventView;

    open spec fn view(&self) -> EventView {
        match self {
            SDCoreEvent::ButtonAdded { key, added_button } => EventView::ButtonAdded { key: *key, added_button: added_button@ },
            SDCoreEvent::ButtonUpdated { key, new_button, old_button } =>
                EventView::ButtonUpdated { key: *key, new_button: new_button@, old_button: old_button@ },
            SDCoreEvent::ButtonDeleted { key, deleted_button } => EventView::ButtonDeleted { key: *key, deleted_button: deleted_button@ },
            SDCoreEvent::ButtonDown { key } => EventView::ButtonDown { key: *key },
            SDCoreEvent::ButtonUp { key } => EventView::ButtonUp { key: *key },
            SDCoreEvent::ButtonAction { key, pressed_button } => EventView::ButtonAction { key: *key, pressed_button: pressed_button@ },
            SDCoreEvent::PanelPushed { new_panel } => EventView::PanelPushed { new_panel: new_panel@ },
            SDCoreEvent::PanelPopped { popped_panel } => EventView::PanelPopped { popped_panel: popped_panel@ },
            SDCoreEvent::PanelReplaced { old_panel, new_panel } => EventView::PanelReplaced {
                old_panel: match old_panel { Some(p) => Some(p@), None => None },
                new_panel: new_panel@,
            },
            SDCoreEvent::StackReset { new_panel } => EventView::StackReset { new_panel: new_panel@ },
        }
    }
}

/// An event and the modules it is to be delivered to.
pub struct Dispatch {
    pub recipients: Vec<String>,
    pub event: SDCoreEvent,
}

/// The abstract content of a dispatch.
pub struct DispatchView {
    pub recipients: Seq<Seq<char>>,
    pub event: EventView,
}

impl View for Dispatch {
    type V = DispatchView;

    open spec fn view(&self) -> DispatchView {
        DispatchView { recipients: strings_view(self.recipients@), event: self.event@ }
    }
}

/// The view of a list of dispatches.
pub open spec fn dispatches_view(s: Seq<Dispatch>) -> Seq<DispatchView> {
    s.map_values(|d: Dispatch| d@)
}

/// Viewing a list after a push is viewing it before, then pushing the view.
pub proof fn lemma_dispatches_view_push(s: Seq<Dispatch>, x: Dispatch)
    ensures
        dispatches_view(s.push(x)) == dispatches_view(s).push(x@),
{
    assert(dispatches_view(s.push(x)) =~= dispatches_view(s).push(x@));
}

/// The names of `names` other than `origin`, in order.
pub open spec fn recipients_for(names: Seq<Seq<char>>, origin: Seq<char>) -> Seq<Seq<char>> {
    names.filter(other_than(origin))
}

/// Holds of the names other than `origin`.
pub open spec fn other_than(origin: Seq<char>) -> spec_fn(Seq<char>) -> bool {
    |n: Seq<char>| n != origin
}

/// Commands for the device's transport.
pub enum DeviceCommand {
    SetBrightness(u8),
}

/// The persisted configuration of a device.
pub struct DeviceConfig {
    pub serial: String,
    pub brightness: u8,
    /// The root panel as last committed.
    pub layout: Option<ButtonPanel>,
    /// Set by a commit, cleared once the configuration is saved.
    pub dirty_state: bool,
    /// When the last commit happened, in milliseconds of the caller's clock.
    pub commit_time: Option<u64>,
}

/// The state of one device and its core.
pub struct SDCore<M> {
    pub serial_number: String,
    pub key_count: u8,
    /// Width and height of a key image, in pixels.
    pub image_size: (u32, u32),
    /// The panel stack; the last panel is the one on screen.
    pub current_stack: Vec<ButtonPanel>,
    pub module_manager: ModuleManager<M>,
    /// The event queues of the IPC clients.
    pub socket_manager: SocketManager,
    pub device_config: DeviceConfig,
    /// A redraw of the screen is due.
    pub redraw_pending: bool,
    /// Warnings for the operator's log, oldest first.
    pub warnings: Vec<String>,
    /// Events waiting to be delivered to modules, oldest first.
    pub dispatched: Vec<Dispatch>,
    /// Commands waiting for the device's transport, oldest first.
    pub commands: Vec<DeviceCommand>,
}

impl<M> SDCore<M> {
    /// The panel stack, bottom first.
    pub open spec fn stack(&self) -> Seq<PanelView> {
        panels_view(self.current_stack@)
    }

    /// The names of all registered modules.
    pub open spec fn module_names(&self) -> Seq<Seq<char>> {
        self.module_manager.names()
    }

    /// Creates a device core with a single empty root panel.
    pub fn new(serial_number: String, key_count: u8, image_size: (u32, u32), module_manager: ModuleManager<M>, socket_manager: SocketManager) -> (r: SDCore<M>)
        ensures
            r.socket_manager == socket_manager,
            r.serial_number@ == serial_number@,
            r.key_count == key_count,
            r.image_size == image_size,
            r.module_manager == module_manager,
            r.stack().len() == 1,
            r.stack()[0].buttons == Map::<u8, ButtonView>::empty(),
            r.device_config.serial@ == serial_number@,
            r.device_config.brightness == 50,
            r.device_config.layout is None,
            !r.device_config.dirty_state,
            r.redraw_pending,
            r.warnings@.len() == 0,
            r.dispatched@.len() == 0,
            r.commands@.len() == 0,
    {
        let mut stack: Vec<ButtonPanel> = Vec::new();
        stack.push(ButtonPanel::new("Root".to_owned()));
        let serial = copy_string(&serial_number);
        SDCore {
            serial_number,
            key_count,
            image_size,
            current_stack: stack,
            module_manager,
            socket_manager,
            device_config: DeviceConfig {
                serial,
                brightness: 50,
                layout: None,
                dirty_state: false,
                commit_time: None,
            },
            redraw_pending: true,
            warnings: Vec::new(),
            dispatched: Vec::new(),
            commands: Vec::new(),
        }
    }

    /// Asks for the screen to be drawn again.
    pub fn mark_for_redraw(&mut self)
        ensures
            *final(self) == (SDCore { redraw_pending: true, ..*old(self) }),
    {
        self.redraw_pending = true;
    }
}

} // verus!
