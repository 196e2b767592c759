// The audio devices the app can open, and nothing about what it plays
// through them: devices, formats and the errors opening them can give.

pub mod mock;

use vstd::prelude::*;
use vstd::string::StringExecFns;

verus! {

broadcast use vstd::string::group_string_axioms;

/// The most frames a processor is handed in one call, so every buffer it
/// needs can be taken up front rather than inside a real-time callback.
pub const MAX_BLOCK_FRAMES: usize = 32_768;

/// Which backend a device came from - what a settings file stores.
#[allow(non_camel_case_types)]
#[derive(Clone, Copy, PartialEq, Eq, Structural, Hash, Debug)]
pub enum BackendId {
    ASIO,
    WASAPI,
    COREAUDIO,
    ALSA,
    JACK,
    MOCK,
}

/// The name a backend is stored and shown under.
pub open spec fn backend_name(b: BackendId) -> Seq<char> {
    match b {
        BackendId::ASIO => "asio"@,
        BackendId::WASAPI => "wasapi"@,
        BackendId::COREAUDIO => "coreaudio"@,
        BackendId::ALSA => "alsa"@,
        BackendId::JACK => "jack"@,
        BackendId::MOCK => "mock"@,
    }
}

impl BackendId {
    pub fn as_str(self) -> (name: &'static str)
        ensures
            name@ == backend_name(self),
    {
        match self {
            BackendId::ASIO => "asio",
            BackendId::WASAPI => "wasapi",
            BackendId::COREAUDIO => "coreaudio",
            BackendId::ALSA => "alsa",
            BackendId::JACK => "jack",
            BackendId::MOCK => "mock",
        }
    }
}

/// Which way audio flows through a device. Naming the direction is what
/// keeps asking a playback-only endpoint to record unrepresentable.
#[derive(Clone, Copy, PartialEq, Eq, Structural, Debug)]
pub enum Direction {
    Input,
    Output,
    Duplex,
}

impl Direction {
    pub fn can_capture(self) -> (can: bool)
        ensures
            can == (self == Direction::Input || self == Direction::Duplex),
    {
        match self {
            Direction::Input | Direction::Duplex => true,
            Direction::Output => false,
        }
    }

    pub fn can_play(self) -> (can: bool)
        ensures
            can == (self == Direction::Output || self == Direction::Duplex),
    {
        match self {
            Direction::Output | Direction::Duplex => true,
            Direction::Input => false,
        }
    }
}

/// A device, as something that can be written to a settings file and
/// looked up again later.
#[derive(Clone, PartialEq, Eq, Debug)]
pub struct DeviceId {
    pub backend: BackendId,
    pub name: String,
}

impl DeviceId {
    pub fn new(backend: BackendId, name: &str) -> (id: DeviceId)
        ensures
            id.backend == backend,
            id.name@ == name@,
    {
        DeviceId { backend, name: String::from_str(name) }
    }
}

#[derive(Clone, PartialEq, Eq, Debug)]
pub struct DeviceInfo {
    pub id: DeviceId,
    pub direction: Direction,
}

/// What a device will agree to. Channel counts are zero for a direction
/// it does not do at all.
#[derive(Clone, PartialEq, Eq, Debug)]
pub struct DeviceCaps {
    pub sample_rates: Vec<u32>,
    pub input_channels: u16,
    pub output_channels: u16,
}

impl Default for DeviceCaps {
    fn default() -> (caps: DeviceCaps)
        ensures
            caps.sample_rates@.len() == 0,
            caps.input_channels == 0,
            caps.output_channels == 0,
    {
        DeviceCaps { sample_rates: Vec::new(), input_channels: 0, output_channels: 0 }
    }
}

/// Names the same device twice on a duplex backend, and two endpoints on
/// one that splits them.
#[derive(Clone, PartialEq, Eq, Debug)]
pub struct StreamRequest {
    pub input: DeviceId,
    pub output: DeviceId,
    pub sample_rate: u32,
}

/// What the device actually agreed to, which is not always what was asked
/// for. Read this rather than assuming the request was honoured.
#[derive(Clone, Copy, PartialEq, Eq, Structural, Debug)]
pub struct StreamFormat {
    pub sample_rate: u32,
    pub input_channels: u16,
    pub output_channels: u16,
    /// Never more than this many frames per call.
    pub max_block_frames: usize,
}

#[derive(Clone, PartialEq, Eq, Debug)]
pub enum HalError {
    /// The backend itself is not there - no driver installed, or no
    /// subsystem to talk to.
    BackendUnavailable { backend: BackendId, detail: String },
    DeviceNotFound { backend: BackendId, device: String },
    /// An input from one backend and an output from another: separate
    /// clocks, and no way to agree on a buffer size.
    CrossBackend { input: BackendId, output: BackendId },
    /// The device is there but would not say what it supports.
    Enumeration(String),
    /// It answered, and the answer rules out what was asked for.
    UnsupportedConfig(String),
    OpenFailed(String),
    StartFailed(String),
    /// Reported by a running stream, after it started.
    Runtime(String),
}

/// The sentence an error is shown as.
pub open spec fn hal_error_text(e: HalError) -> Seq<char> {
    match e {
        HalError::BackendUnavailable { backend, detail } => backend_name(backend)
            + " is unavailable: "@ + detail@,
        HalError::DeviceNotFound { backend, device } => backend_name(backend) + " device '"@
            + device@ + "' not found"@,
        HalError::CrossBackend { input, output } => "input is "@ + backend_name(input)
            + " and output is "@ + backend_name(output) + "; they must be the same"@,
        HalError::Enumeration(detail) => "could not list what the device supports: "@ + detail@,
        HalError::UnsupportedConfig(detail) => detail@,
        HalError::OpenFailed(detail) => "could not open the device: "@ + detail@,
        HalError::StartFailed(detail) => "could not start the stream: "@ + detail@,
        HalError::Runtime(detail) => "stream error: "@ + detail@,
    }
}

impl HalError {
    /// The error as a sentence worth showing a person: these reach the
    /// settings screen verbatim.
    pub fn message(&self) -> (text: String)
        ensures
            text@ == hal_error_text(*self),
    {
        let mut text = String::new();
        match self {
            HalError::BackendUnavailable { backend, detail } => {
                text.append(backend.as_str());
                text.append(" is unavailable: ");
                text.append(detail.as_str());
            },
            HalError::DeviceNotFound { backend, device } => {
                text.append(backend.as_str());
                text.append(" device '");
                text.append(device.as_str());
                text.append("' not found");
            },
            HalError::CrossBackend { input, output } => {
                text.append("input is ");
                text.append(input.as_str());
                text.append(" and output is ");
                text.append(output.as_str());
                text.append("; they must be the same");
            },
            HalError::Enumeration(detail) => {
                text.append("could not list what the device supports: ");
                text.append(detail.as_str());
            },
            HalError::UnsupportedConfig(detail) => {
                text.append(detail.as_str());
            },
            HalError::OpenFailed(detail) => {
                text.append("could not open the device: ");
                text.append(detail.as_str());
            },
            HalError::StartFailed(detail) => {
                text.append("could not start the stream: ");
                text.append(detail.as_str());
            },
            HalError::Runtime(detail) => {
                text.append("stream error: ");
                text.append(detail.as_str());
            },
        }
        assert(text@ =~= hal_error_text(*self));
        text
    }
}

/// Which backend a request goes to: both ends have to be on the same one.
pub fn backend_for(request: &StreamRequest) -> (backend: Result<BackendId, HalError>)
    ensures
        request.input.backend == request.output.backend ==> backend == Ok::<
            BackendId,
            HalError,
        >(request.input.backend),
        request.input.backend != request.output.backend ==> backend == Err::<BackendId, HalError>(
            HalError::CrossBackend { input: request.input.backend, output: request.output.backend },
        ),
{
    if request.input.backend != request.output.backend {
        Err(HalError::CrossBackend { input: request.input.backend, output: request.output.backend })
    } else {
        Ok(request.input.backend)
    }
}

// ---------------------------------------------------------------------
// The registry: several backends built into one app, found by the id a
// settings file stores. Each backend is asked for its own devices; what
// is decided across them is below, given the backends' ids in the order
// they were registered and what each one answered.
// ---------------------------------------------------------------------

/// Where the first backend with `id` stands among `ids`.
pub open spec fn first_backend(ids: Seq<BackendId>, id: BackendId) -> Option<int> {
    if exists|i: int| 0 <= i < ids.len() && ids[i] == id {
        Some(choose|i: int| 0 <= i < ids.len() && ids[i] == id && forall|j: int| 0 <= j < i ==> ids[j] != id)
    } else {
        None
    }
}

/// Where the first backend stored under `name` stands among `ids`.
pub open spec fn first_backend_named(ids: Seq<BackendId>, name: Seq<char>) -> Option<int> {
    if exists|i: int| 0 <= i < ids.len() && backend_name(ids[i]) == name {
        Some(
            choose|i: int|
                0 <= i < ids.len() && backend_name(ids[i]) == name && forall|j: int|
                    0 <= j < i ==> backend_name(ids[j]) != name,
        )
    } else {
        None
    }
}

/// The registered backend with `id`, by its place in the registry.
pub fn find_backend(ids: &Vec<BackendId>, id: BackendId) -> (at: Option<usize>)
    ensures
        match at {
            Some(k) => first_backend(ids@, id) == Some(k as int),
            None => first_backend(ids@, id) is None,
        },
{
    let mut i: usize = 0;
    while i < ids.len()
        invariant
            i <= ids@.len(),
            forall|j: int| 0 <= j < i ==> ids@[j] != id,
        decreases ids@.len() - i,
    {
        if ids[i] == id {
            proof {
                let k = choose|k: int| 0 <= k < ids@.len() && ids@[k] == id && forall|j: int| 0 <= j < k ==> ids@[j] != id;
                if k < i {
                    assert(ids@[k] != id);
                } else if k > i {
                    assert(ids@[i as int] != id);
                }
            }
            return Some(i);
        }
        i = i + 1;
    }
    None
}

/// The registered backend a settings file names, by its place in the
/// registry: the name is the one `BackendId::as_str` gives.
pub fn find_backend_named(ids: &Vec<BackendId>, name: &str) -> (at: Option<usize>)
    ensures
        match at {
            Some(k) => first_backend_named(ids@, name@) == Some(k as int),
            None => first_backend_named(ids@, name@) is None,
        },
{
    let wanted = String::from_str(name);
    let mut i: usize = 0;
    while i < ids.len()
        invariant
            i <= ids@.len(),
            wanted@ == name@,
            forall|j: int| 0 <= j < i ==> backend_name(ids@[j]) != name@,
        decreases ids@.len() - i,
    {
        let candidate = String::from_str(ids[i].as_str());
        if candidate == wanted {
            proof {
                let k = choose|k: int|
                    0 <= k < ids@.len() && backend_name(ids@[k]) == name@ && forall|j: int|
                        0 <= j < k ==> backend_name(ids@[j]) != name@;
                if k < i {
                    assert(backend_name(ids@[k]) != name@);
                } else if k > i {
                    assert(backend_name(ids@[i as int]) != name@);
                }
            }
            return Some(i);
        }
        i = i + 1;
    }
    None
}

/// Every device the backends listed, in registry order; a backend that
/// could not list its devices contributes none, rather than hiding the
/// others' - having no driver for one backend must not read as having no
/// audio devices at all.
pub open spec fn gathered(listings: Seq<Result<Vec<DeviceInfo>, HalError>>) -> Seq<DeviceInfo>
    decreases listings.len(),
{
    if listings.len() == 0 {
        Seq::empty()
    } else {
        let before = gathered(listings.drop_last());
        match listings.last() {
            Ok(list) => before + list@,
            Err(_) => before,
        }
    }
}

/// `gathered`: what each registered backend answered when asked for its
/// devices, in registry order, made into one list.
pub fn gather_devices(listings: Vec<Result<Vec<DeviceInfo>, HalError>>) -> (devices: Vec<DeviceInfo>)
    ensures
        devices@ == gathered(listings@),
{
    let ghost all = listings@;
    let mut rest = listings;
    let mut devices: Vec<DeviceInfo> = Vec::new();
    let n = rest.len();
    let mut k: usize = 0;
    assert(all.take(0) =~= Seq::<Result<Vec<DeviceInfo>, HalError>>::empty());
    assert(all.skip(0) =~= all);
    while rest.len() > 0
        invariant
            k <= all.len(),
            all.len() == n,
            rest@ == all.skip(k as int),
            devices@ == gathered(all.take(k as int)),
        decreases rest@.len(),
    {
        let listing = rest.remove(0);
        proof {
            assert(listing == all[k as int]);
            assert(all.take(k + 1).drop_last() =~= all.take(k as int));
            assert(all.take(k + 1).last() == all[k as int]);
            assert(rest@ =~= all.skip(k + 1));
        }
        match listing {
            Ok(mut list) => {
                devices.append(&mut list);
            },
            Err(_) => {},
        }
        k = k + 1;
    }
    assert(all.take(k as int) =~= all);
    devices
}

/// Which registered backend opens `request`: both ends have to be on one
/// backend, and that backend has to be built in. The answer is its place
/// in the registry, or why there is none.
pub fn route(request: &StreamRequest, ids: &Vec<BackendId>) -> (routed: Result<usize, HalError>)
    ensures
        request.input.backend != request.output.backend ==> routed == Err::<usize, HalError>(
            HalError::CrossBackend { input: request.input.backend, output: request.output.backend },
        ),
        request.input.backend == request.output.backend ==> match first_backend(
            ids@,
            request.input.backend,
        ) {
            Some(k) => routed == Ok::<usize, HalError>(k as usize),
            None => routed matches Err(HalError::BackendUnavailable { backend: b, detail: d }) && b
                == request.input.backend && d@ == "not built into this app"@,
        },
{
    let backend = match backend_for(request) {
        Ok(b) => b,
        Err(e) => {
            return Err(e);
        },
    };
    match find_backend(ids, backend) {
        Some(k) => Ok(k),
        None => Err(
            HalError::BackendUnavailable { backend, detail: String::from_str("not built into this app") },
        ),
    }
}

/// A running pair of streams. Dropping it stops the audio.
pub trait AudioStream {
    fn format(&self) -> StreamFormat;
}

} // verus!
