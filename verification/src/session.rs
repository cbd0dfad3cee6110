//! The device session manager: one connection slot under the single-peer
//! policy. A `device_info` while a device is already paired is rejected and
//! the existing session preserved; this trades availability for the
//! invariant that at most one remote controller acts at a time.

use vstd::prelude::*;

verus! {

/// One remote companion device, as shown to the UI.
#[derive(Clone, Debug)]
pub struct Device {
    pub name: String,
    pub connected: bool,
}

/// The mathematical value of a [`Device`].
pub struct DeviceV {
    pub name: Seq<char>,
    pub connected: bool,
}

impl View for Device {
    type V = DeviceV;

    open spec fn view(&self) -> DeviceV {
        DeviceV { name: self.name@, connected: self.connected }
    }
}

/// How a pairing attempt ended.
#[derive(Clone, Copy, PartialEq, Eq, Structural, Debug)]
pub enum PairingOutcome {
    /// The slot was free: the device is now paired.
    Accepted,
    /// A device is already paired: nothing changed.
    Rejected,
}

/// The single connection slot.
pub struct AppState {
    device: Option<Device>,
}

impl AppState {
    /// The paired device, if any.
    pub closed spec fn device_view(&self) -> Option<DeviceV> {
        match self.device {
            Some(d) => Some(d@),
            None => None,
        }
    }

    /// An empty slot: no device paired.
    pub fn new() -> (r: AppState)
        ensures
            r.device_view() is None,
    {
        AppState { device: None }
    }

    /// A deep copy of the paired device, for display.
    pub fn current_device(&self) -> (r: Option<Device>)
        ensures
            match r {
                Some(d) => self.device_view() == Some(d@),
                None => self.device_view() is None,
            },
    {
        match &self.device {
            Some(d) => Some(Device { name: d.name.clone(), connected: d.connected }),
            None => None,
        }
    }

    /// A `device_info` message: pairs the named device if the slot is
    /// free; while a device is paired the attempt is rejected and the
    /// existing session is preserved unchanged.
    pub fn handle_device_info(&mut self, name: String) -> (r: PairingOutcome)
        ensures
            match r {
                PairingOutcome::Accepted => {
                    &&& old(self).device_view() is None
                    &&& final(self).device_view() == Some(
                        DeviceV { name: name@, connected: true },
                    )
                },
                PairingOutcome::Rejected => {
                    &&& old(self).device_view() is Some
                    &&& *final(self) == *old(self)
                },
            },
    {
        if self.device.is_some() {
            PairingOutcome::Rejected
        } else {
            self.device = Some(Device { name, connected: true });
            PairingOutcome::Accepted
        }
    }

    /// The connection's receive loop ended: the slot is cleared. Yields
    /// whether a device had been paired (and the UI must be told).
    pub fn handle_disconnect(&mut self) -> (r: bool)
        ensures
            final(self).device_view() is None,
            r == (old(self).device_view() is Some),
    {
        let had = self.device.is_some();
        self.device = None;
        had
    }
}

} // verus!
