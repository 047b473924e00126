//! Recording: which device is used, and the audio it has delivered.
//!
//! Devices deliver audio in chunks, which are gathered here until the recording stops. The
//! samples may be of any type.
use vstd::prelude::*;

verus! {

/// A device that audio can be recorded with.
pub struct InputDevice {
    pub id: String,
    pub name: String,
    pub is_default: bool,
}

/// The model of an `InputDevice`.
pub struct DeviceView {
    pub id: Seq<char>,
    pub name: Seq<char>,
    pub is_default: bool,
}

impl View for InputDevice {
    type V = DeviceView;

    open spec fn view(&self) -> DeviceView {
        DeviceView { id: self.id@, name: self.name@, is_default: self.is_default }
    }
}

/// A device that the system knows.
pub struct FoundDevice {
    /// `None` where the system has no identifier for it.
    pub id: Option<String>,
    pub name: String,
    pub supports_input: bool,
}

/// The text of an optional string.
pub open spec fn text_of(s: Option<String>) -> Option<Seq<char>> {
    match s {
        Some(s) => Some(s@),
        None => None,
    }
}

/// The text of an optional string; empty where there is none.
pub open spec fn text_or_empty(s: Option<String>) -> Seq<char> {
    match s {
        Some(s) => s@,
        None => Seq::empty(),
    }
}

/// How a device is listed, where the default device is `default_id`.
pub open spec fn listing(found: FoundDevice, default_id: Option<Seq<char>>) -> DeviceView {
    DeviceView {
        id: text_or_empty(found.id),
        name: found.name@,
        is_default: text_of(found.id) == default_id,
    }
}

/// The devices that can record, in the order in which they were found.
pub open spec fn listings(found: Seq<FoundDevice>, default_id: Option<Seq<char>>) -> Seq<DeviceView>
    decreases found.len(),
{
    if found.len() == 0 {
        Seq::empty()
    } else if found.last().supports_input {
        listings(found.drop_last(), default_id).push(listing(found.last(), default_id))
    } else {
        listings(found.drop_last(), default_id)
    }
}

/// The model of a list of devices.
pub open spec fn device_seq(devices: Seq<InputDevice>) -> Seq<DeviceView> {
    Seq::new(devices.len(), |i: int| devices[i]@)
}

/// There is one model for each device, with all that is known of it.
pub proof fn lemma_device_seq(devices: Seq<InputDevice>, i: int)
    requires
        0 <= i < devices.len(),
    ensures
        device_seq(devices).len() == devices.len(),
        device_seq(devices)[i] == (DeviceView {
            id: devices[i].id@,
            name: devices[i].name@,
            is_default: devices[i].is_default,
        }),
{
}

/// Whether `device` is how one of the devices that can record is listed.
pub open spec fn lists_one_of(
    device: DeviceView,
    found: Seq<FoundDevice>,
    default_id: Option<Seq<char>>,
) -> bool {
    exists|i: int|
        0 <= i < found.len() && (#[trigger] found[i]).supports_input && device == listing(
            found[i],
            default_id,
        )
}

/// The devices that are listed are the ones that can record, no more and no fewer.
pub proof fn lemma_listings(
    found: Seq<FoundDevice>,
    default_id: Option<Seq<char>>,
    device: DeviceView,
)
    ensures
        listings(found, default_id).contains(device) <==> lists_one_of(device, found, default_id),
    decreases found.len(),
{
    if found.len() > 0 {
        let head = found.drop_last();
        let last = found.len() - 1;
        lemma_listings(head, default_id, device);
        let before = listings(head, default_id);
        let all = listings(found, default_id);
        if all.contains(device) {
            let k = choose|k: int| 0 <= k < all.len() && all[k] == device;
            if k < before.len() {
                assert(before[k] == device);
                let i = choose|i: int|
                    0 <= i < head.len() && (#[trigger] head[i]).supports_input && device == listing(
                        head[i],
                        default_id,
                    );
                assert(found[i] == head[i]);
            } else {
                assert(found[last].supports_input);
            }
        }
        if lists_one_of(device, found, default_id) {
            let i = choose|i: int|
                0 <= i < found.len() && (#[trigger] found[i]).supports_input && device == listing(
                    found[i],
                    default_id,
                );
            if i < last {
                assert(head[i] == found[i]);
                let k = choose|k: int| 0 <= k < before.len() && before[k] == device;
                assert(all[k] == device);
            } else {
                assert(all[all.len() - 1] == device);
            }
        }
    }
}

/// A device is listed under its own name and identifier, or under none where it has none, and
/// as the default one exactly where the default device has that identifier, or neither has
/// one.
pub proof fn lemma_listing(found: FoundDevice, default_id: Option<Seq<char>>)
    ensures
        listing(found, default_id).name == found.name@,
        found.id is None ==> listing(found, default_id).id.len() == 0,
        found.id matches Some(id) ==> listing(found, default_id).id == id@,
        listing(found, default_id).is_default <==> match (found.id, default_id) {
            (Some(id), Some(default)) => id@ == default,
            (None, None) => true,
            _ => false,
        },
{
}

/// Devices are listed in the order in which they were found, each that can record once, and
/// no other.
pub proof fn lemma_listings_keep_order(
    a: Seq<FoundDevice>,
    b: Seq<FoundDevice>,
    default_id: Option<Seq<char>>,
)
    ensures
        listings(a + b, default_id) == listings(a, default_id) + listings(b, default_id),
        a.len() == 1 ==> listings(a, default_id) == if a[0].supports_input {
            seq![listing(a[0], default_id)]
        } else {
            Seq::empty()
        },
    decreases b.len(),
{
    if b.len() == 0 {
        assert(a + b =~= a);
        assert(listings(a, default_id) + listings(b, default_id) =~= listings(a, default_id));
    } else {
        lemma_listings_keep_order(a, b.drop_last(), default_id);
        assert((a + b).drop_last() =~= a + b.drop_last());
        assert(listings(a + b, default_id) =~= listings(a, default_id) + listings(b, default_id));
    }
    if a.len() == 1 {
        assert(a.drop_last() =~= Seq::<FoundDevice>::empty());
        assert(listings(a.drop_last(), default_id) =~= Seq::<DeviceView>::empty());
    }
}

fn same_text(a: &Option<String>, b: &Option<String>) -> (r: bool)
    ensures
        r == (text_of(*a) == text_of(*b)),
{
    match (a, b) {
        (Some(x), Some(y)) => *x == *y,
        (None, None) => true,
        _ => false,
    }
}

/// A device to record with.
#[derive(Clone, Copy, PartialEq, Eq, Debug)]
pub enum DeviceChoice {
    /// The default device of the system.
    Default,
    /// The device at this place of the list.
    Listed(usize),
}

/// The device to record with at first: the default one, or the first of the listed ones
/// that can record. `inputs` says of each listed device whether it can; it is `None` where
/// devices cannot be listed.
pub fn choose_device(has_default: bool, inputs: Option<&Vec<bool>>) -> (r: Result<
    DeviceChoice,
    String,
>)
    ensures
        has_default ==> r == Ok::<DeviceChoice, String>(DeviceChoice::Default),
        !has_default ==> match r {
            Ok(DeviceChoice::Default) => false,
            Ok(DeviceChoice::Listed(i)) => inputs matches Some(can) && i < can@.len()
                && can@[i as int] && forall|j: int| 0 <= j < i ==> !can@[j],
            Err(message) => message@ == "no input device available"@ && (inputs matches Some(can)
                ==> forall|j: int| 0 <= j < can@.len() ==> !can@[j]),
        },
{
    if has_default {
        return Ok(DeviceChoice::Default);
    }
    if let Some(can) = inputs {
        let mut i: usize = 0;
        while i < can.len()
            invariant
                i <= can@.len(),
                inputs == Some(can),
                !has_default,
                forall|j: int| 0 <= j < i ==> !can@[j],
            decreases can@.len() - i,
        {
            if can[i] {
                return Ok(DeviceChoice::Listed(i));
            }
            i = i + 1;
        }
    }
    Err("no input device available".to_owned())
}

/// Whether a device delivers samples that can be used: only the one format is. `format` is
/// what the format is called.
pub fn check_format(is_float: bool, format: &str) -> (r: Result<(), String>)
    ensures
        match r {
            Ok(_) => is_float,
            Err(message) => !is_float && message@ == "unsupported sample format: "@ + format@,
        },
{
    if is_float {
        Ok(())
    } else {
        let mut message = "unsupported sample format: ".to_owned();
        message.append(format);
        Err(message)
    }
}

/// What came of opening a device.
pub enum Opened {
    /// The identifier is none, for this reason.
    InvalidId(String),
    /// There is no such device.
    NotFound,
    /// It could not be opened, for this reason.
    Failed(String),
    /// It is open, and delivers this many samples per second.
    Rate(u32),
}

/// The chunks of a list.
pub open spec fn chunk_views<T>(chunks: Seq<Vec<T>>) -> Seq<Seq<T>> {
    Seq::new(chunks.len(), |i: int| chunks[i]@)
}

/// There is one sequence for each chunk, with all its samples.
pub proof fn lemma_chunk_views<T>(chunks: Seq<Vec<T>>, i: int)
    requires
        0 <= i < chunks.len(),
    ensures
        chunk_views(chunks).len() == chunks.len(),
        chunk_views(chunks)[i] == chunks[i]@,
{
}

/// The samples of `chunks`, in order.
pub open spec fn flat<T>(chunks: Seq<Seq<T>>) -> Seq<T>
    decreases chunks.len(),
{
    if chunks.len() == 0 {
        Seq::empty()
    } else {
        flat(chunks.drop_last()) + chunks.last()
    }
}

/// The model of a recorder.
pub struct RecorderView<T> {
    /// The audio gathered so far.
    pub samples: Seq<T>,
    pub sample_rate: u32,
    pub device_id: Seq<char>,
}

impl<T> RecorderView<T> {
    /// The recorder after `chunks` were delivered.
    pub open spec fn gathered(self, chunks: Seq<Seq<T>>) -> RecorderView<T> {
        RecorderView { samples: self.samples + flat(chunks), ..self }
    }

    /// The recorder after its audio was taken away.
    pub open spec fn drained(self) -> RecorderView<T> {
        RecorderView { samples: Seq::empty(), ..self }
    }
}

proof fn lemma_flat_add<T>(a: Seq<Seq<T>>, b: Seq<Seq<T>>)
    ensures
        flat(a + b) == flat(a) + flat(b),
    decreases b.len(),
{
    if b.len() == 0 {
        assert(a + b == a);
        assert(flat(a) + flat(b) == flat(a));
    } else {
        lemma_flat_add(a, b.drop_last());
        assert((a + b).drop_last() == a + b.drop_last());
        assert(flat(a) + flat(b.drop_last()) + b.last() == flat(a) + (flat(b.drop_last())
            + b.last()));
    }
}

/// What a recording yields does not depend on when its audio was gathered: gathering some
/// chunks and then others is gathering them at once, so every sample comes out once, in the
/// order of its delivery.
pub proof fn lemma_gathering_keeps_order<T>(
    recorder: RecorderView<T>,
    a: Seq<Seq<T>>,
    b: Seq<Seq<T>>,
)
    ensures
        recorder.gathered(a).gathered(b) == recorder.gathered(a + b),
        recorder.drained().gathered(a).gathered(b).samples == flat(a + b),
{
    lemma_flat_add(a, b);
    assert(recorder.samples + flat(a) + flat(b) == recorder.samples + (flat(a) + flat(b)));
    assert(Seq::<T>::empty() + flat(a) + flat(b) == flat(a) + flat(b));
}

/// Gathering one chunk puts exactly its samples behind what is there, and changes neither the
/// device nor its rate. What is taken away is taken away whole.
pub proof fn lemma_one_chunk_is_gathered<T>(recorder: RecorderView<T>, chunk: Seq<T>)
    ensures
        recorder.gathered(seq![chunk]) == (RecorderView {
            samples: recorder.samples + chunk,
            sample_rate: recorder.sample_rate,
            device_id: recorder.device_id,
        }),
        recorder.drained() == (RecorderView {
            samples: Seq::<T>::empty(),
            sample_rate: recorder.sample_rate,
            device_id: recorder.device_id,
        }),
{
    let one = seq![chunk];
    assert(one.drop_last() =~= Seq::<Seq<T>>::empty());
    assert(flat(one.drop_last()) =~= Seq::<T>::empty());
    assert(flat(one) =~= chunk);
}

/// As many samples are gathered as were delivered, and each stands at its place: behind all
/// samples of the chunks before its own, and those of its own chunk before it.
pub proof fn lemma_every_sample_is_gathered<T>(
    recorder: RecorderView<T>,
    chunks: Seq<Seq<T>>,
    i: int,
    k: int,
)
    requires
        0 <= i < chunks.len(),
        0 <= k < chunks[i].len(),
    ensures
        ({
            let before = recorder.gathered(chunks.take(i)).samples.len();
            let all = recorder.gathered(chunks).samples;
            &&& recorder.gathered(chunks.take(i + 1)).samples.len() == before + chunks[i].len()
            &&& before + k < all.len()
            &&& all[before + k] == chunks[i][k]
        }),
    decreases chunks.len(),
{
    let head = chunks.drop_last();
    let start = recorder.samples.len();
    assert(chunks.take(i + 1).drop_last() =~= chunks.take(i));
    assert(chunks.take(i + 1).last() == chunks[i]);
    if i < chunks.len() - 1 {
        assert(head.take(i) =~= chunks.take(i));
        assert(head[i] == chunks[i]);
        lemma_every_sample_is_gathered(recorder, head, i, k);
    } else {
        assert(chunks.take(i) =~= head);
    }
}

/// A recorder.
pub struct Recorder<T> {
    samples: Vec<T>,
    sample_rate: u32,
    device_id: String,
}

impl<T> View for Recorder<T> {
    type V = RecorderView<T>;

    closed spec fn view(&self) -> RecorderView<T> {
        RecorderView {
            samples: self.samples@,
            sample_rate: self.sample_rate,
            device_id: self.device_id@,
        }
    }
}

impl<T> Recorder<T> {
    /// A recorder for a device that was opened; `device_id` is `None` where the system has
    /// no identifier for it.
    pub fn new(device_id: Option<String>, sample_rate: u32) -> (r: Recorder<T>)
        ensures
            r@.samples == Seq::<T>::empty(),
            r@.sample_rate == sample_rate,
            r@.device_id == text_or_empty(device_id),
    {
        let device_id = match device_id {
            Some(id) => id,
            None => String::new(),
        };
        Recorder { samples: Vec::new(), sample_rate, device_id }
    }

    /// The identifier of the device in use.
    pub fn current_device(&self) -> (r: &str)
        ensures
            r@ == self@.device_id,
    {
        self.device_id.as_str()
    }

    /// Samples per second of the device in use.
    pub fn sample_rate(&self) -> (r: u32)
        ensures
            r == self@.sample_rate,
    {
        self.sample_rate
    }

    /// Lists the devices that can record. A device is the default one where its identifier
    /// is that of the default device, or where neither has one.
    pub fn list_devices(found: &Vec<FoundDevice>, default_id: &Option<String>) -> (r: Vec<
        InputDevice,
    >)
        ensures
            device_seq(r@) == listings(found@, text_of(*default_id)),
    {
        let ghost default_text = text_of(*default_id);
        let mut r: Vec<InputDevice> = Vec::new();
        let mut i: usize = 0;
        assert(device_seq(r@) == listings(found@.take(0), default_text));
        while i < found.len()
            invariant
                i <= found@.len(),
                default_text == text_of(*default_id),
                device_seq(r@) == listings(found@.take(i as int), default_text),
            decreases found@.len() - i,
        {
            proof {
                assert(found@.take(i + 1).drop_last() == found@.take(i as int));
                assert(found@.take(i + 1).last() == found@[i as int]);
            }
            let device = &found[i];
            if device.supports_input {
                let ghost before = r@;
                let is_default = same_text(&device.id, default_id);
                let id = match &device.id {
                    Some(id) => id.clone(),
                    None => String::new(),
                };
                r.push(InputDevice { id, name: device.name.clone(), is_default });
                assert(device_seq(r@) == device_seq(before).push(
                    listing(found@[i as int], default_text),
                ));
            }
            i = i + 1;
        }
        assert(found@.take(i as int) == found@);
        r
    }

    /// Changes to the device `id`, where `opened` is what came of opening it. Only an open
    /// device is changed to, and whatever was gathered is then forgotten.
    pub fn select_device(&mut self, id: &str, opened: Opened) -> (r: Result<(), String>)
        ensures
            match opened {
                Opened::Rate(rate) => r is Ok && final(self)@ == (RecorderView {
                    samples: Seq::<T>::empty(),
                    sample_rate: rate,
                    device_id: id@,
                }),
                Opened::NotFound => final(self)@ == old(self)@ && (r matches Err(message)
                    && message@ == "input device not found: "@ + id@),
                Opened::InvalidId(reason) => final(self)@ == old(self)@ && (r matches Err(message)
                    && message@ == reason@),
                Opened::Failed(reason) => final(self)@ == old(self)@ && (r matches Err(message)
                    && message@ == reason@),
            },
    {
        match opened {
            Opened::Rate(rate) => {
                self.samples = Vec::new();
                self.sample_rate = rate;
                self.device_id = id.to_owned();
                Ok(())
            },
            Opened::NotFound => {
                let mut message = "input device not found: ".to_owned();
                message.append(id);
                Err(message)
            },
            Opened::InvalidId(reason) => Err(reason),
            Opened::Failed(reason) => Err(reason),
        }
    }

    /// Gathers the chunks that were delivered, and hands the last of them back, if any: its
    /// loudness is the present one.
    pub fn poll(&mut self, chunks: Vec<Vec<T>>) -> (r: Option<Vec<T>>)
        where T: Copy
        ensures
            final(self)@ == old(self)@.gathered(chunk_views(chunks@)),
            match r {
                Some(last) => chunks@.len() > 0 && last@ == chunks@.last()@,
                None => chunks@.len() == 0,
            },
    {
        let ghost all = chunk_views(chunks@);
        let mut i: usize = 0;
        proof {
            assert(self.samples@ + flat(all.take(0)) == self.samples@);
        }
        while i < chunks.len()
            invariant
                i <= chunks@.len(),
                all == chunk_views(chunks@),
                self.samples@ == old(self).samples@ + flat(all.take(i as int)),
                self.sample_rate == old(self).sample_rate,
                self.device_id@ == old(self).device_id@,
            decreases chunks@.len() - i,
        {
            proof {
                assert(all.take(i + 1).drop_last() == all.take(i as int));
                assert(all.take(i + 1).last() == chunks@[i as int]@);
            }
            let ghost before = self.samples@;
            copy_behind(&mut self.samples, &chunks[i]);
            assert(old(self).samples@ + (flat(all.take(i as int)) + chunks@[i as int]@) == before
                + chunks@[i as int]@);
            i = i + 1;
        }
        assert(all.take(i as int) == all);
        let mut chunks = chunks;
        chunks.pop()
    }

    /// Ends a recording, where `paused` is what came of pausing the device and `chunks` is
    /// what it delivered until then: hands over all that was gathered, and keeps nothing.
    /// Where the device could not be paused, nothing changes.
    pub fn stop(&mut self, paused: Result<(), String>, chunks: Vec<Vec<T>>) -> (r: Result<
        Vec<T>,
        String,
    >)
        where T: Copy
        ensures
            match paused {
                Ok(_) => r matches Ok(samples) && samples@ == old(self)@.gathered(
                    chunk_views(chunks@),
                ).samples && final(self)@ == old(self)@.drained(),
                Err(reason) => final(self)@ == old(self)@ && (r matches Err(message) && message@
                    == reason@),
            },
    {
        match paused {
            Ok(_) => {
                let _ = self.poll(chunks);
                let mut samples: Vec<T> = Vec::new();
                std::mem::swap(&mut samples, &mut self.samples);
                Ok(samples)
            },
            Err(reason) => Err(reason),
        }
    }
}

fn copy_behind<T: Copy>(samples: &mut Vec<T>, chunk: &Vec<T>)
    ensures
        final(samples)@ == old(samples)@ + chunk@,
{
    let mut i: usize = 0;
    while i < chunk.len()
        invariant
            i <= chunk@.len(),
            samples@ == old(samples)@ + chunk@.take(i as int),
        decreases chunk@.len() - i,
    {
        samples.push(chunk[i]);
        i = i + 1;
    }
    assert(chunk@.take(i as int) == chunk@);
}

} // verus!
