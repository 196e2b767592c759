// A stand-in backend with one duplex device, for exercising what sits on
// top of a backend without an audio interface: what it lists, what it
// says the device supports, and what it grants when asked to open it.

use vstd::prelude::*;
use vstd::string::StringExecFns;
use crate::audio::engine::{candidate_rates, candidate_sample_rates};
use crate::hal::{
    BackendId, DeviceCaps, DeviceId, DeviceInfo, Direction, HalError, StreamFormat, StreamRequest,
    MAX_BLOCK_FRAMES,
};
use crate::toml::{decimal, push_decimal};

verus! {

broadcast use vstd::string::group_string_axioms;

/// The one device the stand-in backend reports.
pub const DEVICE: &'static str = "Mock Device";

/// The stand-in backend: its device's channel counts, and a rate it
/// grants whatever is asked for, where one is set - a real device does
/// not always honour the request.
pub struct MockBackend {
    pub input_channels: u16,
    pub output_channels: u16,
    pub granted_rate: Option<u32>,
}

/// Whether the stand-in device runs at `rate`: it runs at every
/// candidate rate.
fn offers_rate(rate: u32) -> (offered: bool)
    ensures
        offered == candidate_rates().contains(rate),
{
    let rates = candidate_sample_rates();
    let mut i: usize = 0;
    while i < rates.len()
        invariant
            rates@ == candidate_rates(),
            i <= rates@.len(),
            forall|j: int| 0 <= j < i ==> rates@[j] != rate,
        decreases rates@.len() - i,
    {
        if rates[i] == rate {
            assert(candidate_rates()[i as int] == rate);
            return true;
        }
        i = i + 1;
    }
    false
}

/// Whether `name` is the stand-in device's.
fn is_device(name: &String) -> (matches: bool)
    ensures
        matches == (name@ == DEVICE@),
{
    *name == String::from_str(DEVICE)
}

/// The error for a device the backend has never heard of.
fn not_found(name: &String) -> (error: HalError)
    ensures
        error matches HalError::DeviceNotFound { backend: b, device: d } && b == BackendId::MOCK
            && d@ == name@,
{
    HalError::DeviceNotFound { backend: BackendId::MOCK, device: name.clone() }
}

/// A stand-in backend whose device has one input and one output channel.
pub fn mock() -> (backend: MockBackend)
    ensures
        backend.input_channels == 1,
        backend.output_channels == 1,
        backend.granted_rate is None,
{
    mock_with(1, 1)
}

/// The same, with the channel counts a test wants, reported as one duplex
/// device.
pub fn mock_with(input_channels: u16, output_channels: u16) -> (backend: MockBackend)
    ensures
        backend.input_channels == input_channels,
        backend.output_channels == output_channels,
        backend.granted_rate is None,
{
    MockBackend { input_channels, output_channels, granted_rate: None }
}

impl MockBackend {
    /// The same backend, granting `rate` whatever is asked for.
    pub fn always_grants(self, rate: u32) -> (backend: MockBackend)
        ensures
            backend.granted_rate == Some(rate),
            backend.input_channels == self.input_channels,
            backend.output_channels == self.output_channels,
    {
        MockBackend { granted_rate: Some(rate), ..self }
    }

    pub fn id(&self) -> (id: BackendId)
        ensures
            id == BackendId::MOCK,
    {
        BackendId::MOCK
    }

    /// Its one device, by name.
    pub fn device_id() -> (id: DeviceId)
        ensures
            id.backend == BackendId::MOCK,
            id.name@ == DEVICE@,
    {
        DeviceId::new(BackendId::MOCK, DEVICE)
    }

    /// Always the one duplex device.
    pub fn devices(&self) -> (devices: Result<Vec<DeviceInfo>, HalError>)
        ensures
            devices matches Ok(list) && list@.len() == 1 && list@[0].id.backend == BackendId::MOCK
                && list@[0].id.name@ == DEVICE@ && list@[0].direction == Direction::Duplex,
    {
        let mut list = Vec::new();
        list.push(DeviceInfo { id: MockBackend::device_id(), direction: Direction::Duplex });
        Ok(list)
    }

    /// What the device supports: every candidate rate, and the channel
    /// counts the backend was built with. Any other device is not found.
    pub fn caps(&self, device: &DeviceId) -> (caps: Result<DeviceCaps, HalError>)
        ensures
            device.name@ == DEVICE@ ==> (caps matches Ok(c) && c.sample_rates@ == candidate_rates()
                && c.input_channels == self.input_channels && c.output_channels
                == self.output_channels),
            device.name@ != DEVICE@ ==> (caps matches Err(
                HalError::DeviceNotFound { backend: b, device: d },
            ) && b == BackendId::MOCK && d@ == device.name@),
    {
        if !is_device(&device.name) {
            return Err(not_found(&device.name));
        }
        let sample_rates = candidate_sample_rates();
        Ok(
            DeviceCaps {
                sample_rates,
                input_channels: self.input_channels,
                output_channels: self.output_channels,
            },
        )
    }

    /// What opening `request` gets: both ends have to name the device;
    /// the rate is the one set to be granted, or else the one asked for
    /// where the device runs at it. Opening starts nothing.
    pub fn open(&self, request: &StreamRequest) -> (format: Result<StreamFormat, HalError>)
        ensures
            request.input.name@ != DEVICE@ ==> (format matches Err(
                HalError::DeviceNotFound { backend: b, device: d },
            ) && b == BackendId::MOCK && d@ == request.input.name@),
            request.input.name@ == DEVICE@ && request.output.name@ != DEVICE@ ==> (format matches Err(
                HalError::DeviceNotFound { backend: b, device: d },
            ) && b == BackendId::MOCK && d@ == request.output.name@),
            request.input.name@ == DEVICE@ && request.output.name@ == DEVICE@ ==> match self.granted_rate {
                Some(rate) => format == Ok::<StreamFormat, HalError>(
                    StreamFormat {
                        sample_rate: rate,
                        input_channels: self.input_channels,
                        output_channels: self.output_channels,
                        max_block_frames: MAX_BLOCK_FRAMES,
                    },
                ),
                None => if candidate_rates().contains(request.sample_rate) {
                    format == Ok::<StreamFormat, HalError>(
                        StreamFormat {
                            sample_rate: request.sample_rate,
                            input_channels: self.input_channels,
                            output_channels: self.output_channels,
                            max_block_frames: MAX_BLOCK_FRAMES,
                        },
                    )
                } else {
                    format matches Err(HalError::UnsupportedConfig(text)) && text@ == decimal(
                        request.sample_rate as nat,
                    ) + " Hz is not supported by '"@ + DEVICE@ + "'"@
                },
            },
    {
        if !is_device(&request.input.name) {
            return Err(not_found(&request.input.name));
        }
        if !is_device(&request.output.name) {
            return Err(not_found(&request.output.name));
        }
        let sample_rate = match self.granted_rate {
            Some(rate) => rate,
            None => {
                if offers_rate(request.sample_rate) {
                    request.sample_rate
                } else {
                    let mut text = String::new();
                    push_decimal(&mut text, request.sample_rate);
                    text.append(" Hz is not supported by '");
                    text.append(DEVICE);
                    text.append("'");
                    return Err(HalError::UnsupportedConfig(text));
                }
            },
        };
        Ok(
            StreamFormat {
                sample_rate,
                input_channels: self.input_channels,
                output_channels: self.output_channels,
                max_block_frames: MAX_BLOCK_FRAMES,
            },
        )
    }
}

/// A request naming the stand-in device both ways, which is what a duplex
/// backend gets handed.
pub fn request(sample_rate: u32) -> (request: StreamRequest)
    ensures
        request.input.backend == BackendId::MOCK,
        request.output.backend == BackendId::MOCK,
        request.input.name@ == DEVICE@,
        request.output.name@ == DEVICE@,
        request.sample_rate == sample_rate,
{
    StreamRequest {
        input: DeviceId::new(BackendId::MOCK, DEVICE),
        output: DeviceId::new(BackendId::MOCK, DEVICE),
        sample_rate,
    }
}

} // verus!
