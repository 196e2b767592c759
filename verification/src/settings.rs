// State behind the settings screen: what there is to choose from and what
// is selected. Asking the device what it offers is the caller's: it hands
// in the answers.

use vstd::prelude::*;
use crate::config::{
    memory_bytes, AppConfig, ConfigModel, DEFAULT_LATENCY_MS, DEFAULT_LONG_PRESS_MS,
    DEFAULT_MAX_LAYERS, DEFAULT_MAX_LOOP_SECS, DEFAULT_PREROLL_MS, DEFAULT_VOLUME_PCT,
};

verus! {

pub struct SettingsState {
    pub devices: Vec<String>,
    pub selected_device: usize,
    pub sample_rates: Vec<u32>,
    pub selected_rate: usize,
    pub input_channels: u16,
    pub selected_input_channel: usize,
    /// Loop playback gain, in percent of unity - see `AppConfig`.
    pub volume_pct: u32,
    /// The value settings, in the units and ranges `AppConfig` documents.
    pub preroll_ms: u32,
    pub latency_ms: u32,
    pub max_loop_secs: u32,
    pub max_layers: u32,
    pub long_press_ms: u32,
    pub error: Option<String>,
}

/// Where `name` first appears among `names`, if it does.
pub open spec fn first_index_of(names: Seq<Seq<char>>, name: Seq<char>) -> Option<int> {
    if exists|i: int| 0 <= i < names.len() && names[i] == name {
        Some(choose|i: int| 0 <= i < names.len() && names[i] == name && forall|j: int| 0 <= j < i ==> names[j] != name)
    } else {
        None
    }
}

/// Where `rate` first appears among `rates`, if it does.
pub open spec fn first_rate_index(rates: Seq<u32>, rate: u32) -> Option<int> {
    if exists|i: int| 0 <= i < rates.len() && rates[i] == rate {
        Some(choose|i: int| 0 <= i < rates.len() && rates[i] == rate && forall|j: int| 0 <= j < i ==> rates[j] != rate)
    } else {
        None
    }
}

/// Where the rate selected among `old_rates` stands among `new_rates`: it
/// stays selected where the new list offers it, otherwise the first is.
pub open spec fn kept_rate_index(old_rates: Seq<u32>, selected: int, new_rates: Seq<u32>) -> usize {
    if 0 <= selected < old_rates.len() {
        match first_rate_index(new_rates, old_rates[selected]) {
            Some(i) => i as usize,
            None => 0,
        }
    } else {
        0
    }
}

pub open spec fn names_view(v: Seq<String>) -> Seq<Seq<char>> {
    v.map_values(|s: String| s@)
}

/// The device to pre-select: the saved one where it is still there,
/// otherwise the first.
pub open spec fn preferred_device_spec(devices: Seq<Seq<char>>, saved: Option<ConfigModel>) -> nat {
    match saved {
        Some(c) => match first_index_of(devices, c.device_name) {
            Some(i) => i as nat,
            None => 0,
        },
        None => 0,
    }
}

fn find_name(names: &Vec<String>, name: &String) -> (at: Option<usize>)
    ensures
        match at {
            Some(k) => first_index_of(names_view(names@), name@) == Some(k as int),
            None => first_index_of(names_view(names@), name@) is None,
        },
{
    let ghost nv = names_view(names@);
    let mut i: usize = 0;
    while i < names.len()
        invariant
            i <= names@.len(),
            nv == names_view(names@),
            forall|j: int| 0 <= j < i ==> nv[j] != name@,
        decreases names@.len() - i,
    {
        if names[i] == *name {
            proof {
                assert(nv[i as int] == name@);
                let k = choose|k: int| 0 <= k < nv.len() && nv[k] == name@ && forall|j: int| 0 <= j < k ==> nv[j] != name@;
                if k < i {
                    assert(nv[k] != name@);
                } else if k > i {
                    assert(nv[i as int] != name@);
                }
            }
            return Some(i);
        }
        i = i + 1;
    }
    None
}

fn find_rate(rates: &Vec<u32>, rate: u32) -> (at: Option<usize>)
    ensures
        match at {
            Some(k) => first_rate_index(rates@, rate) == Some(k as int),
            None => first_rate_index(rates@, rate) is None,
        },
{
    let mut i: usize = 0;
    while i < rates.len()
        invariant
            i <= rates@.len(),
            forall|j: int| 0 <= j < i ==> rates@[j] != rate,
        decreases rates@.len() - i,
    {
        if rates[i] == rate {
            proof {
                let k = choose|k: int| 0 <= k < rates@.len() && rates@[k] == rate && forall|j: int| 0 <= j < k ==> rates@[j] != rate;
                if k < i {
                    assert(rates@[k] != rate);
                } else if k > i {
                    assert(rates@[i as int] != rate);
                }
            }
            return Some(i);
        }
        i = i + 1;
    }
    None
}

/// What keeps the settings screen from offering Start.
#[derive(Clone, Copy, PartialEq, Eq, Structural, Debug)]
pub enum StartBlocker {
    NoDevices,
    NoSampleRates,
    NoInputChannels,
}

impl SettingsState {
    /// Which device to pre-select: the saved one where it is still
    /// plugged in, otherwise the first. Its rates and channel count are
    /// what `new` needs to be handed.
    pub fn preferred_device(devices: &Vec<String>, saved: &Option<AppConfig>) -> (index: usize)
        ensures
            index == preferred_device_spec(
                names_view(devices@),
                match saved {
                    Some(c) => Some(c@),
                    None => None,
                },
            ),
    {
        match saved {
            Some(cfg) => match find_name(devices, &cfg.device_name) {
                Some(i) => i,
                None => 0,
            },
            None => 0,
        }
    }

    /// The screen as it opens: every list pre-selected to whatever is
    /// saved, so reopening settings does not reset them to the top.
    /// `rates` and `channels` are what the pre-selected device offers (see
    /// `preferred_device`); with no devices at all there is nothing to
    /// offer. A saved rate the device does not offer selects the first,
    /// as does a saved channel it does not have; a value not saved falls
    /// back to its default.
    pub fn new(
        error: Option<String>,
        devices: Vec<String>,
        saved: Option<AppConfig>,
        rates: Vec<u32>,
        channels: u16,
    ) -> (state: SettingsState)
        ensures
            names_view(state.devices@) == names_view(devices@),
            state.selected_device == preferred_device_spec(
                names_view(devices@),
                match saved {
                    Some(c) => Some(c@),
                    None => None,
                },
            ),
            state.error == error,
            state.selected_device < devices@.len() ==> state.sample_rates@ == rates@
                && state.input_channels == channels,
            state.selected_device >= devices@.len() ==> state.sample_rates@.len() == 0
                && state.input_channels == 0,
            state.selected_rate == match saved {
                Some(c) => match first_rate_index(state.sample_rates@, c.sample_rate) {
                    Some(i) => i as nat,
                    None => 0,
                },
                None => 0,
            },
            state.selected_input_channel == match saved {
                Some(c) => if (c.input_channel as nat) < state.input_channels {
                    c.input_channel as nat
                } else {
                    0
                },
                None => 0,
            },
            state.volume_pct == match saved {
                Some(c) => c.volume_pct,
                None => DEFAULT_VOLUME_PCT,
            },
            state.preroll_ms == match saved {
                Some(c) => c.preroll_ms,
                None => DEFAULT_PREROLL_MS,
            },
            state.latency_ms == match saved {
                Some(c) => c.latency_ms,
                None => DEFAULT_LATENCY_MS,
            },
            state.max_loop_secs == match saved {
                Some(c) => c.max_loop_secs,
                None => DEFAULT_MAX_LOOP_SECS,
            },
            state.max_layers == match saved {
                Some(c) => c.max_layers,
                None => DEFAULT_MAX_LAYERS,
            },
            state.long_press_ms == match saved {
                Some(c) => c.long_press_ms,
                None => DEFAULT_LONG_PRESS_MS,
            },
    {
        let selected_device = SettingsState::preferred_device(&devices, &saved);
        let (sample_rates, input_channels) = if selected_device < devices.len() {
            (rates, channels)
        } else {
            (Vec::new(), 0)
        };
        let selected_rate = match &saved {
            Some(cfg) => match find_rate(&sample_rates, cfg.sample_rate) {
                Some(i) => i,
                None => 0,
            },
            None => 0,
        };
        let selected_input_channel = match &saved {
            Some(cfg) => if (cfg.input_channel as usize) < input_channels as usize {
                cfg.input_channel as usize
            } else {
                0
            },
            None => 0,
        };
        let (volume_pct, preroll_ms, latency_ms, max_loop_secs, max_layers, long_press_ms) =
            match &saved {
            Some(c) => (
                c.volume_pct,
                c.preroll_ms,
                c.latency_ms,
                c.max_loop_secs,
                c.max_layers,
                c.long_press_ms,
            ),
            None => (
                DEFAULT_VOLUME_PCT,
                DEFAULT_PREROLL_MS,
                DEFAULT_LATENCY_MS,
                DEFAULT_MAX_LOOP_SECS,
                DEFAULT_MAX_LAYERS,
                DEFAULT_LONG_PRESS_MS,
            ),
        };
        SettingsState {
            devices,
            selected_device,
            sample_rates,
            selected_rate,
            input_channels,
            selected_input_channel,
            volume_pct,
            preroll_ms,
            latency_ms,
            max_loop_secs,
            max_layers,
            long_press_ms,
            error,
        }
    }

    /// Why the choice on screen cannot be started, if it cannot: no input
    /// device at all, then a device that reports no usable rate, then one
    /// that reports no inputs.
    pub fn start_blocker(&self) -> (blocker: Option<StartBlocker>)
        ensures
            blocker == if self.devices@.len() == 0 {
                Some(StartBlocker::NoDevices)
            } else if self.sample_rates@.len() == 0 {
                Some(StartBlocker::NoSampleRates)
            } else if self.input_channels == 0 {
                Some(StartBlocker::NoInputChannels)
            } else {
                None
            },
    {
        if self.devices.len() == 0 {
            Some(StartBlocker::NoDevices)
        } else if self.sample_rates.len() == 0 {
            Some(StartBlocker::NoSampleRates)
        } else if self.input_channels == 0 {
            Some(StartBlocker::NoInputChannels)
        } else {
            None
        }
    }

    /// The device selected, if the selection names one.
    pub fn selected_device_name(&self) -> (name: Option<String>)
        ensures
            self.selected_device < self.devices@.len() ==> (name matches Some(n) && n@
                == self.devices@[self.selected_device as int]@),
            self.selected_device >= self.devices@.len() ==> name is None,
    {
        if self.selected_device < self.devices.len() {
            Some(self.devices[self.selected_device].clone())
        } else {
            None
        }
    }

    /// The current choice as settings, ready to start the looper with and
    /// to save: a selection past the end of its list stands for nothing -
    /// an empty name, a rate of zero.
    pub fn to_config(&self) -> (config: AppConfig)
        ensures
            config@ == (ConfigModel {
                device_name: if self.selected_device < self.devices@.len() {
                    self.devices@[self.selected_device as int]@
                } else {
                    Seq::empty()
                },
                sample_rate: if self.selected_rate < self.sample_rates@.len() {
                    self.sample_rates@[self.selected_rate as int]
                } else {
                    0
                },
                input_channel: self.selected_input_channel as u16,
                volume_pct: self.volume_pct,
                preroll_ms: self.preroll_ms,
                latency_ms: self.latency_ms,
                max_loop_secs: self.max_loop_secs,
                max_layers: self.max_layers,
                long_press_ms: self.long_press_ms,
            }),
    {
        let device_name = if self.selected_device < self.devices.len() {
            self.devices[self.selected_device].clone()
        } else {
            String::new()
        };
        let sample_rate = if self.selected_rate < self.sample_rates.len() {
            self.sample_rates[self.selected_rate]
        } else {
            0
        };
        AppConfig {
            device_name,
            sample_rate,
            input_channel: self.selected_input_channel as u16,
            volume_pct: self.volume_pct,
            preroll_ms: self.preroll_ms,
            latency_ms: self.latency_ms,
            max_loop_secs: self.max_loop_secs,
            max_layers: self.max_layers,
            long_press_ms: self.long_press_ms,
        }
    }

    /// What the loop length and layer count will cost in memory, since
    /// every layer is allocated in full.
    pub fn loop_memory_bytes(&self) -> (bytes: u64)
        requires
            self.max_loop_secs * self.max_layers * (if self.selected_rate < self.sample_rates@.len() {
                self.sample_rates@[self.selected_rate as int]
            } else {
                0
            }) * 4 <= u64::MAX,
        ensures
            bytes == self.max_loop_secs * self.max_layers * (if self.selected_rate
                < self.sample_rates@.len() {
                self.sample_rates@[self.selected_rate as int]
            } else {
                0
            }) * 4,
    {
        let config = self.to_config();
        assert(memory_bytes(config@) == self.max_loop_secs * self.max_layers * config.sample_rate * 4);
        config.loop_memory_bytes()
    }

    /// Rates and channels are per device, so a device change re-asks and
    /// drops selections the new device does not offer. A selection it does
    /// offer is kept: switching devices does not move a rate both of them
    /// run at. `caps` is what the newly selected device offers; with no
    /// device selected, nothing changes.
    pub fn refresh_for_selected_device(&mut self, caps: (Vec<u32>, u16))
        ensures
            old(self).selected_device < old(self).devices@.len() ==> {
                &&& final(self).sample_rates@ == caps.0@
                &&& final(self).input_channels == caps.1
                &&& final(self).selected_rate == kept_rate_index(
                    old(self).sample_rates@,
                    old(self).selected_rate as int,
                    caps.0@,
                )
                &&& final(self).selected_input_channel == if old(self).selected_input_channel
                    < caps.1 {
                    old(self).selected_input_channel
                } else {
                    0
                }
                &&& final(self).devices == old(self).devices
                &&& final(self).selected_device == old(self).selected_device
                &&& final(self).volume_pct == old(self).volume_pct
                &&& final(self).preroll_ms == old(self).preroll_ms
                &&& final(self).latency_ms == old(self).latency_ms
                &&& final(self).max_loop_secs == old(self).max_loop_secs
                &&& final(self).max_layers == old(self).max_layers
                &&& final(self).long_press_ms == old(self).long_press_ms
                &&& final(self).error == old(self).error
            },
            old(self).selected_device >= old(self).devices@.len() ==> *final(self) == *old(self),
    {
        if self.selected_device < self.devices.len() {
            let (rates, channels) = caps;
            let selected_rate = if self.selected_rate < self.sample_rates.len() {
                match find_rate(&rates, self.sample_rates[self.selected_rate]) {
                    Some(i) => i,
                    None => 0,
                }
            } else {
                0
            };
            if self.selected_input_channel >= channels as usize {
                self.selected_input_channel = 0;
            }
            self.sample_rates = rates;
            self.input_channels = channels;
            self.selected_rate = selected_rate;
        }
    }
}

} // verus!
