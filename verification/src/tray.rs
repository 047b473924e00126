//! The menu of the tray icon: what it offers, and what is done when an item is clicked.
use std::collections::VecDeque;

use vstd::prelude::*;

use crate::recorder;
use crate::recorder::InputDevice;
use crate::text;

verus! {

/// What the identifier of a device's menu item begins with.
pub const DEVICE_PREFIX: &'static str = "device:";

/// What was asked for in the menu.
pub enum TrayAction {
    SelectDevice(String),
    RefreshDevices,
    Quit,
}

/// The model of a `TrayAction`.
pub enum ActionView {
    SelectDevice(Seq<char>),
    RefreshDevices,
    Quit,
}

impl View for TrayAction {
    type V = ActionView;

    open spec fn view(&self) -> ActionView {
        match self {
            TrayAction::SelectDevice(id) => ActionView::SelectDevice(id@),
            TrayAction::RefreshDevices => ActionView::RefreshDevices,
            TrayAction::Quit => ActionView::Quit,
        }
    }
}

/// What a click on the item `raw` asks for, where `quit_id` and `refresh_id` are the items
/// for quitting and refreshing; `None` where it asks for nothing.
pub open spec fn action_of(
    raw: Seq<char>,
    quit_id: Seq<char>,
    refresh_id: Seq<char>,
) -> Option<ActionView> {
    if raw == quit_id {
        Some(ActionView::Quit)
    } else if raw == refresh_id {
        Some(ActionView::RefreshDevices)
    } else if text::has_prefix(raw, DEVICE_PREFIX@) {
        Some(ActionView::SelectDevice(raw.skip(DEVICE_PREFIX@.len() as int)))
    } else {
        None
    }
}

/// An item that always stands in the menu.
#[derive(Clone, Copy, PartialEq, Eq, Debug)]
pub enum FixedItem {
    /// The submenu of the devices, under this label.
    Devices(&'static str),
    /// The item for refreshing, under this label.
    Refresh(&'static str),
    Separator,
    /// The item for quitting, under this label.
    Quit(&'static str),
}

/// The model of a `FixedItem`.
pub enum FixedView {
    Devices(Seq<char>),
    Refresh(Seq<char>),
    Separator,
    Quit(Seq<char>),
}

impl View for FixedItem {
    type V = FixedView;

    open spec fn view(&self) -> FixedView {
        match self {
            FixedItem::Devices(label) => FixedView::Devices(label@),
            FixedItem::Refresh(label) => FixedView::Refresh(label@),
            FixedItem::Separator => FixedView::Separator,
            FixedItem::Quit(label) => FixedView::Quit(label@),
        }
    }
}

/// The model of a list of such items.
pub open spec fn fixed_seq(items: Seq<FixedItem>) -> Seq<FixedView> {
    Seq::new(items.len(), |i: int| items[i]@)
}

/// The items that always stand in the menu, from the top down.
pub fn fixed_items() -> (r: Vec<FixedItem>)
    ensures
        fixed_seq(r@) == seq![
            FixedView::Devices("麦克风"@),
            FixedView::Refresh("刷新设备"@),
            FixedView::Separator,
            FixedView::Quit("退出"@),
        ],
{
    let mut r: Vec<FixedItem> = Vec::new();
    r.push(FixedItem::Devices("麦克风"));
    r.push(FixedItem::Refresh("刷新设备"));
    r.push(FixedItem::Separator);
    r.push(FixedItem::Quit("退出"));
    r
}

/// The menu item of a device.
pub struct MenuEntry {
    pub device_id: String,
    pub menu_id: String,
    pub label: String,
    pub checked: bool,
}

/// The model of a `MenuEntry`.
pub struct EntryView {
    pub device_id: Seq<char>,
    pub menu_id: Seq<char>,
    pub label: Seq<char>,
    pub checked: bool,
}

impl View for MenuEntry {
    type V = EntryView;

    open spec fn view(&self) -> EntryView {
        EntryView {
            device_id: self.device_id@,
            menu_id: self.menu_id@,
            label: self.label@,
            checked: self.checked,
        }
    }
}

/// The menu item of `device`, where the device in use is `current`.
pub open spec fn entry_of(device: recorder::DeviceView, current: Seq<char>) -> EntryView {
    EntryView {
        device_id: device.id,
        menu_id: DEVICE_PREFIX@ + device.id,
        label: if device.is_default {
            device.name + " (默认)"@
        } else {
            device.name
        },
        checked: device.id == current,
    }
}

/// The menu items of `devices`, in order. A device without an identifier has none.
pub open spec fn entries_of(devices: Seq<recorder::DeviceView>, current: Seq<char>) -> Seq<EntryView>
    decreases devices.len(),
{
    if devices.len() == 0 {
        Seq::empty()
    } else if devices.last().id.len() == 0 {
        entries_of(devices.drop_last(), current)
    } else {
        entries_of(devices.drop_last(), current).push(entry_of(devices.last(), current))
    }
}

/// The model of a list of menu items.
pub open spec fn entry_seq(entries: Seq<MenuEntry>) -> Seq<EntryView> {
    Seq::new(entries.len(), |i: int| entries[i]@)
}

/// There is one model for each menu item, with all that stands in it.
pub proof fn lemma_entry_seq(entries: Seq<MenuEntry>, i: int)
    requires
        0 <= i < entries.len(),
    ensures
        entry_seq(entries).len() == entries.len(),
        entry_seq(entries)[i] == (EntryView {
            device_id: entries[i].device_id@,
            menu_id: entries[i].menu_id@,
            label: entries[i].label@,
            checked: entries[i].checked,
        }),
{
}

/// A click on the menu item of a device asks for that very device, unless its identifier is
/// that of the item for quitting or for refreshing.
pub proof fn lemma_click_selects_device(
    device: recorder::DeviceView,
    current: Seq<char>,
    quit_id: Seq<char>,
    refresh_id: Seq<char>,
)
    requires
        entry_of(device, current).menu_id != quit_id,
        entry_of(device, current).menu_id != refresh_id,
    ensures
        action_of(entry_of(device, current).menu_id, quit_id, refresh_id) == Some(
            ActionView::SelectDevice(device.id),
        ),
{
    let raw = entry_of(device, current).menu_id;
    assert(raw.take(DEVICE_PREFIX@.len() as int) == DEVICE_PREFIX@);
    assert(raw.skip(DEVICE_PREFIX@.len() as int) == device.id);
}

/// A click on the item for quitting quits, one on the item for refreshing refreshes, and one
/// on any other item asks for a device, if anything: for the one whose identifier stands
/// behind the prefix. An item without that prefix asks for nothing.
pub proof fn lemma_clicks(
    raw: Seq<char>,
    quit_id: Seq<char>,
    refresh_id: Seq<char>,
)
    ensures
        action_of(raw, quit_id, refresh_id) == Some(ActionView::Quit) <==> raw == quit_id,
        action_of(raw, quit_id, refresh_id) == Some(ActionView::RefreshDevices) <==> raw
            == refresh_id && raw != quit_id,
        action_of(raw, quit_id, refresh_id) matches Some(ActionView::SelectDevice(id)) ==> raw
            == "device:"@ + id,
        action_of(raw, quit_id, refresh_id) is None ==> raw != quit_id && raw != refresh_id
            && forall|id: Seq<char>| raw != #[trigger] ("device:"@ + id),
{
    text::lemma_has_prefix(raw, "device:"@);
    if text::has_prefix(raw, "device:"@) {
        assert("device:"@ + raw.skip("device:"@.len() as int) =~= raw);
    }
}

/// The menu item of a device carries its name, with the mark of the default device behind it
/// where it is that device, and nothing else; and its identifier behind the prefix.
pub proof fn lemma_entry(device: recorder::DeviceView, current: Seq<char>)
    ensures
        entry_of(device, current).device_id == device.id,
        entry_of(device, current).menu_id == "device:"@ + device.id,
        entry_of(device, current).label.take(device.name.len() as int) == device.name,
        entry_of(device, current).label.skip(device.name.len() as int) == if device.is_default {
            " (默认)"@
        } else {
            Seq::empty()
        },
        entry_of(device, current).checked <==> device.id == current,
{
    let label = entry_of(device, current).label;
    assert(label.take(device.name.len() as int) =~= device.name);
    if device.is_default {
        assert(label.skip(device.name.len() as int) =~= " (默认)"@);
    } else {
        assert(label.skip(device.name.len() as int) =~= Seq::<char>::empty());
    }
}

/// Devices stand in the menu in the order in which they are listed, each with an identifier
/// once, and no other.
pub proof fn lemma_entries_keep_order(
    a: Seq<recorder::DeviceView>,
    b: Seq<recorder::DeviceView>,
    current: Seq<char>,
)
    ensures
        entries_of(a + b, current) == entries_of(a, current) + entries_of(b, current),
        a.len() == 1 ==> entries_of(a, current) == if a[0].id.len() > 0 {
            seq![entry_of(a[0], current)]
        } else {
            Seq::empty()
        },
    decreases b.len(),
{
    if b.len() == 0 {
        assert(a + b =~= a);
        assert(entries_of(a, current) + entries_of(b, current) =~= entries_of(a, current));
    } else {
        lemma_entries_keep_order(a, b.drop_last(), current);
        assert((a + b).drop_last() =~= a + b.drop_last());
        assert(entries_of(a + b, current) =~= entries_of(a, current) + entries_of(b, current));
    }
    if a.len() == 1 {
        assert(a.drop_last() =~= Seq::<recorder::DeviceView>::empty());
        assert(entries_of(a.drop_last(), current) =~= Seq::<EntryView>::empty());
    }
}

/// Every menu item stands for a device with an identifier, and is checked exactly where
/// that device is in use.
pub proof fn lemma_entries(devices: Seq<recorder::DeviceView>, current: Seq<char>, i: int)
    requires
        0 <= i < entries_of(devices, current).len(),
    ensures
        entries_of(devices, current)[i].device_id.len() > 0,
        entries_of(devices, current)[i].checked <==> entries_of(devices, current)[i].device_id
            == current,
        exists|k: int|
            0 <= k < devices.len() && entries_of(devices, current)[i] == entry_of(
                #[trigger] devices[k],
                current,
            ),
    decreases devices.len(),
{
    let head = devices.drop_last();
    let before = entries_of(head, current);
    if i < before.len() {
        lemma_entries(head, current, i);
        let k = choose|k: int|
            0 <= k < head.len() && before[i] == entry_of(#[trigger] head[k], current);
        assert(devices[k] == head[k]);
    } else {
        assert(entries_of(devices, current)[i] == entry_of(
            devices[devices.len() - 1],
            current,
        ));
    }
}

/// Every device with an identifier has a menu item.
pub proof fn lemma_every_device_is_offered(
    devices: Seq<recorder::DeviceView>,
    current: Seq<char>,
    k: int,
)
    requires
        0 <= k < devices.len(),
        devices[k].id.len() > 0,
    ensures
        entries_of(devices, current).contains(entry_of(devices[k], current)),
    decreases devices.len(),
{
    let head = devices.drop_last();
    let before = entries_of(head, current);
    let all = entries_of(devices, current);
    let entry = entry_of(devices[k], current);
    if k < head.len() {
        lemma_every_device_is_offered(head, current, k);
        let i = choose|i: int| 0 <= i < before.len() && before[i] == entry;
        assert(all[i] == entry);
    } else {
        assert(all[all.len() - 1] == entry);
    }
}

/// The model of the tray.
pub struct TrayView {
    /// What was asked for and not yet taken, the oldest first.
    pub actions: Seq<ActionView>,
    /// The devices whose items stand in the menu.
    pub items: Seq<Seq<char>>,
}

/// The model of a queue of actions.
pub open spec fn action_seq(actions: Seq<TrayAction>) -> Seq<ActionView> {
    Seq::new(actions.len(), |i: int| actions[i]@)
}

/// Which of the items are checked, where the device in use is `id`.
pub open spec fn checks(items: Seq<Seq<char>>, id: Seq<char>) -> Seq<bool> {
    Seq::new(items.len(), |i: int| items[i] == id)
}

/// The devices of a list of menu items.
pub open spec fn entry_ids(entries: Seq<EntryView>) -> Seq<Seq<char>> {
    Seq::new(entries.len(), |i: int| entries[i].device_id)
}

/// Items are put up with the checks that choosing the device in use would give them.
pub proof fn lemma_checks_agree(devices: Seq<recorder::DeviceView>, current: Seq<char>, i: int)
    requires
        0 <= i < entries_of(devices, current).len(),
    ensures
        checks(entry_ids(entries_of(devices, current)), current)[i] == entries_of(
            devices,
            current,
        )[i].checked,
{
    lemma_entries(devices, current, i);
}

/// As many checks are given as there are items, and an item is checked exactly where it is
/// that of the device in use.
pub proof fn lemma_checks(items: Seq<Seq<char>>, id: Seq<char>, i: int)
    requires
        0 <= i < items.len(),
    ensures
        checks(items, id).len() == items.len(),
        checks(items, id)[i] <==> items[i] == id,
{
}

/// The tray.
pub struct Tray {
    actions: VecDeque<TrayAction>,
    device_items: Vec<String>,
}

impl View for Tray {
    type V = TrayView;

    closed spec fn view(&self) -> TrayView {
        TrayView {
            actions: action_seq(self.actions@),
            items: text::texts(self.device_items@),
        }
    }
}

impl Tray {
    /// A tray with no devices in its menu, of which nothing was asked.
    pub fn new() -> (r: Tray)
        ensures
            r@.actions == Seq::<ActionView>::empty(),
            r@.items == Seq::<Seq<char>>::empty(),
    {
        let r = Tray { actions: VecDeque::new(), device_items: Vec::new() };
        assert(r@.actions == Seq::<ActionView>::empty());
        assert(r@.items == Seq::<Seq<char>>::empty());
        r
    }

    /// Takes a click on the item `raw`, and tells whether it asks for anything.
    pub fn on_menu_event(&mut self, raw: &str, quit_id: &str, refresh_id: &str) -> (r: bool)
        ensures
            r == action_of(raw@, quit_id@, refresh_id@) is Some,
            final(self)@.items == old(self)@.items,
            final(self)@.actions == match action_of(raw@, quit_id@, refresh_id@) {
                Some(action) => old(self)@.actions.push(action),
                None => old(self)@.actions,
            },
    {
        let action = if text::equal(raw, quit_id) {
            TrayAction::Quit
        } else if text::equal(raw, refresh_id) {
            TrayAction::RefreshDevices
        } else {
            match text::strip_prefix(raw, DEVICE_PREFIX) {
                Some(id) => TrayAction::SelectDevice(id),
                None => return false,
            }
        };
        let ghost before = self.actions@;
        self.actions.push_back(action);
        assert(action_seq(self.actions@) == action_seq(before).push(action@));
        true
    }

    /// Takes the oldest thing that was asked for, if any.
    pub fn poll(&mut self) -> (r: Option<TrayAction>)
        ensures
            final(self)@.items == old(self)@.items,
            match r {
                Some(action) => old(self)@.actions.len() > 0 && action@ == old(self)@.actions[0]
                    && final(self)@.actions == old(self)@.actions.drop_first(),
                None => old(self)@.actions.len() == 0 && final(self)@.actions
                    == old(self)@.actions,
            },
    {
        let ghost before = self.actions@;
        let r = self.actions.pop_front();
        proof {
            if before.len() > 0 {
                assert(action_seq(self.actions@) == action_seq(before).drop_first());
            }
        }
        r
    }

    /// Empties the list of devices in the menu, and gives the items that are to be put up
    /// for `devices`, where the device in use is `current_id`.
    pub fn set_devices(&mut self, devices: &Vec<InputDevice>, current_id: &str) -> (r: Vec<
        MenuEntry,
    >)
        ensures
            entry_seq(r@) == entries_of(recorder::device_seq(devices@), current_id@),
            final(self)@.items == Seq::<Seq<char>>::empty(),
            final(self)@.actions == old(self)@.actions,
    {
        self.device_items = Vec::new();
        assert(self@.items == Seq::<Seq<char>>::empty());
        let ghost all = recorder::device_seq(devices@);
        let mut r: Vec<MenuEntry> = Vec::new();
        let mut i: usize = 0;
        assert(entry_seq(r@) == entries_of(all.take(0), current_id@));
        while i < devices.len()
            invariant
                i <= devices@.len(),
                all == recorder::device_seq(devices@),
                entry_seq(r@) == entries_of(all.take(i as int), current_id@),
            decreases devices@.len() - i,
        {
            proof {
                assert(all.take(i + 1).drop_last() == all.take(i as int));
                assert(all.take(i + 1).last() == devices@[i as int]@);
            }
            let device = &devices[i];
            if !device.id.as_str().is_empty() {
                let mut label = device.name.clone();
                if device.is_default {
                    label.append(" (默认)");
                }
                let mut menu_id = DEVICE_PREFIX.to_owned();
                menu_id.append(device.id.as_str());
                let checked = text::equal(device.id.as_str(), current_id);
                let ghost before = r@;
                r.push(MenuEntry { device_id: device.id.clone(), menu_id, label, checked });
                assert(entry_seq(r@) == entry_seq(before).push(
                    entry_of(devices@[i as int]@, current_id@),
                ));
            }
            i = i + 1;
        }
        assert(all.take(i as int) == all);
        r
    }

    /// Takes note that the item of a device was put up.
    pub fn put_up(&mut self, device_id: String)
        ensures
            final(self)@.items == old(self)@.items.push(device_id@),
            final(self)@.actions == old(self)@.actions,
    {
        let ghost before = self.device_items@;
        self.device_items.push(device_id);
        assert(text::texts(self.device_items@) == text::texts(before).push(device_id@));
    }

    /// Which of the items in the menu are to be checked, where the device in use is `id`.
    pub fn set_selected_device(&self, id: &str) -> (r: Vec<bool>)
        ensures
            r@ == checks(self@.items, id@),
    {
        let mut r: Vec<bool> = Vec::new();
        let mut i: usize = 0;
        while i < self.device_items.len()
            invariant
                i <= self.device_items@.len(),
                r@ == checks(self@.items, id@).take(i as int),
            decreases self.device_items@.len() - i,
        {
            r.push(text::equal(self.device_items[i].as_str(), id));
            i = i + 1;
        }
        assert(r@ == checks(self@.items, id@));
        r
    }
}

} // verus!
