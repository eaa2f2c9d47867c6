//! What the machine offers, and the settings that follow from it.

use vstd::prelude::*;
use vstd::arithmetic::power2::*;
use crate::double;
use crate::double::Double;
use crate::order;
use crate::text;

verus! {

/// What is known of the machine. Memory and disk sizes are in gigabytes.
#[derive(Clone, Debug)]
pub struct HardwareProfile {
    pub os_name: String,
    pub arch: String,
    pub cpu_cores: usize,
    pub total_ram_gb: Double,
    pub available_ram_gb: Double,
    pub disk_free_gb: Double,
    pub gpu_name: Option<String>,
    pub vram_gb: Option<Double>,
    pub notes: Vec<String>,
}

/// A graphics adapter as the system reports it.
#[derive(Clone, Debug)]
pub struct VideoController {
    pub name: Option<String>,
    pub adapter_ram: Option<u64>,
}

/// What the system reports of the rest of the machine. Sizes are in bytes.
#[derive(Clone, Debug)]
pub struct SystemReadings {
    /// The name that the system gives itself.
    pub system_name: Option<String>,
    /// The platform that the program was built for.
    pub platform: String,
    pub arch: String,
    pub cpu_count: usize,
    pub total_memory: u64,
    pub available_memory: u64,
    /// The free space of each disk.
    pub disk_spaces: Vec<u64>,
}

/// A number of bytes in gigabytes, rounded to tenths.
pub open spec fn gigabytes(bytes: nat) -> Double {
    double::quotient(
        double::rounded(
            double::product(
                double::quotient(double::whole(bytes), double::whole(0x4000_0000)),
                double::whole(10),
            ),
        ),
        double::whole(10),
    )
}

/// A number of bytes in gigabytes, rounded to tenths.
pub fn bytes_to_gb(value: u64) -> (r: Double)
    ensures
        r == gigabytes(value as nat),
{
    Double::whole(value).over(Double::whole(0x4000_0000)).times(Double::whole(10)).round().over(
        Double::whole(10),
    )
}

/// The graphics memory, none counting as zero.
pub open spec fn vram_of(vram_gb: Option<Double>) -> Double {
    match vram_gb {
        Some(v) => v,
        None => double::whole(0),
    }
}

/// How many layers of a model to put on the graphics adapter.
pub open spec fn gpu_layers_for(vram: Double) -> int {
    if double::at_most(double::whole(10), vram) {
        999
    } else if double::at_most(double::whole(6), vram) {
        28
    } else if double::at_most(double::whole(4), vram) {
        16
    } else {
        0
    }
}

/// How many layers of a model to put on the graphics adapter.
pub fn recommended_gpu_layers(hardware: &HardwareProfile) -> (layers: i32)
    ensures
        layers == gpu_layers_for(vram_of(hardware.vram_gb)),
{
    let vram: Double = match hardware.vram_gb {
        Some(v) => v,
        None => Double::whole(0),
    };
    if Double::whole(10).is_at_most(vram) {
        999
    } else if Double::whole(6).is_at_most(vram) {
        28
    } else if Double::whole(4).is_at_most(vram) {
        16
    } else {
        0
    }
}

/// How many tokens of context to keep.
pub open spec fn context_size_for(total_ram: Double) -> int {
    if double::at_most(double::whole(64), total_ram) {
        16384
    } else if double::at_most(double::whole(32), total_ram) {
        8192
    } else {
        4096
    }
}

/// How many tokens of context to keep.
pub fn recommended_context_size(hardware: &HardwareProfile) -> (size: u32)
    ensures
        size == context_size_for(hardware.total_ram_gb),
{
    if Double::whole(64).is_at_most(hardware.total_ram_gb) {
        16384
    } else if Double::whole(32).is_at_most(hardware.total_ram_gb) {
        8192
    } else {
        4096
    }
}

/// Whether a name in lower case is that of the fallback display driver.
pub open spec fn is_fallback_name(lower: Seq<char>) -> bool {
    text::occurs("basic display"@, lower)
}

/// Whether a name in lower case is that of the fallback display driver.
pub fn names_fallback_driver(lower: &str) -> (r: bool)
    ensures
        r == is_fallback_name(lower@),
{
    text::contains(lower, "basic display")
}

/// Whether an adapter counts: it has a name, and not that of the fallback driver.
pub open spec fn is_usable(device: VideoController) -> bool {
    device.name matches Some(name) && !is_fallback_name(text::lowercase(name@))
}

/// The memory of an adapter in gigabytes, as far as it is reported.
pub open spec fn adapter_vram(device: VideoController) -> Option<Double> {
    match device.adapter_ram {
        Some(bytes) => Some(gigabytes(bytes as nat)),
        None => None,
    }
}

/// A size in gigabytes is a number and not a negative one.
pub proof fn lemma_gigabytes_is_number(bytes: nat)
    requires
        bytes <= u64::MAX,
    ensures
        !gigabytes(bytes).is_nan(),
        !gigabytes(bytes).is_negative(),
{
    double::lemma_whole_finite(bytes);
    double::lemma_whole_finite(0x4000_0000);
    double::lemma_whole_finite(10);
    let count = double::quotient(double::whole(bytes), double::whole(0x4000_0000));
    let tenths = double::product(count, double::whole(10));
    double::lemma_quotient_is_number(double::whole(bytes), double::whole(0x4000_0000));
    double::lemma_product_is_number(count, double::whole(10));
    double::lemma_rounded_is_number(tenths);
    double::lemma_quotient_is_number(double::rounded(tenths), double::whole(10));
}

/// More bytes are never fewer gigabytes.
pub proof fn lemma_gigabytes_monotone(a: nat, b: nat)
    requires
        a <= b,
    ensures
        double::at_most(gigabytes(a), gigabytes(b)),
{
    let unit = double::whole(0x4000_0000);
    let ten = double::whole(10);
    order::lemma_whole_exact(0x4000_0000);
    order::lemma_whole_exact(10);
    order::lemma_nearest_monotone(a, 1, b, 1);
    let qa = double::quotient(double::whole(a), unit);
    let qb = double::quotient(double::whole(b), unit);
    order::lemma_quotient_monotone(double::whole(a), double::whole(b), unit);
    order::lemma_product_monotone(qa, qb, ten);
    let pa = double::product(qa, ten);
    let pb = double::product(qb, ten);
    order::lemma_rounded_monotone(pa, pb);
    order::lemma_quotient_monotone(double::rounded(pa), double::rounded(pb), ten);
}

/// A whole number of gigabytes, of `2^30` bytes each, stays that number.
pub proof fn lemma_gigabytes_of_whole(n: nat)
    requires
        n <= 0x4_0000_0000,
    ensures
        gigabytes(n * 0x4000_0000) == double::whole(n),
{
    lemma2_to64();
    order::lemma_quotient_power(n, 30);
    order::lemma_product_whole(n, 10);
    order::lemma_rounded_exact(n * 10);
    order::lemma_quotient_whole(n * 10, 10);
    order::lemma_nearest_same(n * 10, 10, n, 1);
}

/// What is known of a machine in numbers: memory sizes that are finite.
pub open spec fn is_measured(hardware: HardwareProfile) -> bool {
    hardware.total_ram_gb.is_finite() && hardware.available_ram_gb.is_finite()
}

/// A size in gigabytes is finite.
pub proof fn lemma_gigabytes_finite(bytes: nat)
    requires
        bytes <= u64::MAX,
    ensures
        gigabytes(bytes).is_finite(),
        !gigabytes(bytes).is_negative(),
{
    lemma_gigabytes_is_number(bytes);
    lemma_gigabytes_monotone(bytes, 0x4_0000_0000 * 0x4000_0000);
    lemma_gigabytes_of_whole(0x4_0000_0000);
    order::lemma_whole_exact(0x4_0000_0000);
    order::lemma_bounded_finite(gigabytes(bytes), double::whole(0x4_0000_0000));
}

/// More memory never asks for less context.
pub proof fn lemma_context_size_monotone(a: Double, b: Double)
    requires
        double::at_most(a, b),
    ensures
        context_size_for(a) <= context_size_for(b),
{
    reveal(double::at_most);
}

/// More graphics memory never asks for fewer layers.
pub proof fn lemma_gpu_layers_monotone(a: Double, b: Double)
    requires
        double::at_most(a, b),
    ensures
        gpu_layers_for(a) <= gpu_layers_for(b),
{
    reveal(double::at_most);
}

/// The memory by which adapters are compared.
pub open spec fn weight(device: VideoController) -> Double {
    vram_of(adapter_vram(device))
}

/// Whether the adapter at `i` is the one to use among the first `count`: no usable
/// one has more memory, and of those with as much it is the last.
pub open spec fn prevails(devices: Seq<VideoController>, count: int, i: int) -> bool {
    &&& 0 <= i < count
    &&& is_usable(devices[i])
    &&& forall|j: int|
        0 <= j < count && #[trigger] is_usable(devices[j]) ==> double::at_most(
            weight(devices[j]),
            weight(devices[i]),
        )
    &&& forall|j: int|
        i < j < count && #[trigger] is_usable(devices[j]) ==> double::less(
            weight(devices[j]),
            weight(devices[i]),
        )
}

/// The text that notes an adapter of unknown memory.
pub open spec fn unknown_vram_note() -> Seq<char> {
    "Windows detected a GPU but did not report VRAM. The wizard will choose RAM-first settings."@
}

/// The text that notes the lack of an adapter.
pub open spec fn no_gpu_note() -> Seq<char> {
    "No discrete GPU was detected. The setup wizard will use conservative CPU-friendly settings."@
}

/// The adapter to use: its name and its memory. An adapter of unknown memory is noted.
pub fn detect_gpu(devices: &Vec<VideoController>, notes: &mut Vec<String>) -> (r: (
    Option<String>,
    Option<Double>,
))
    ensures
        match r.0 {
            None => r.1 is None && forall|j: int|
                0 <= j < devices.len() ==> !#[trigger] is_usable(devices@[j]),
            Some(name) => exists|i: int|
                #[trigger] prevails(devices@, devices.len() as int, i) && name@
                    == devices@[i].name->0@ && r.1 == adapter_vram(devices@[i]),
        },
        text::views(final(notes)@) == if r.0 is Some && r.1 is None {
            text::views(old(notes)@).push(unknown_vram_note())
        } else {
            text::views(old(notes)@)
        },
{
    let mut best: Option<usize> = None;
    let mut best_vram: Option<Double> = None;
    for k in 0..devices.len()
        invariant
            best is None ==> best_vram is None && forall|j: int|
                0 <= j < k ==> !#[trigger] is_usable(devices@[j]),
            best matches Some(i) ==> i < devices.len() && prevails(devices@, k as int, i as int)
                && best_vram == adapter_vram(devices@[i as int]),
    {
        let vram: Option<Double> = match devices[k].adapter_ram {
            Some(bytes) => Some(bytes_to_gb(bytes)),
            None => None,
        };
        let usable: bool = match &devices[k].name {
            Some(name) => !names_fallback_driver(name.as_str().to_lowercase().as_str()),
            None => false,
        };
        proof {
            reveal(double::less);
            reveal(double::at_most);
            double::lemma_whole_zero();
            assert forall|j: int| 0 <= j < devices.len() implies !(#[trigger] weight(
                devices@[j],
            )).is_nan() by {
                if let Some(bytes) = devices@[j].adapter_ram {
                    lemma_gigabytes_is_number(bytes as nat);
                }
            }
        }
        if usable {
            let held: Double = match best_vram {
                Some(v) => v,
                None => Double::whole(0),
            };
            let found: Double = match vram {
                Some(v) => v,
                None => Double::whole(0),
            };
            proof {
                if let Some(bytes) = devices@[k as int].adapter_ram {
                    lemma_gigabytes_is_number(bytes as nat);
                }
                assert(!weight(devices@[k as int]).is_nan());
                if let Some(i) = best {
                    assert(!weight(devices@[i as int]).is_nan());
                }
            }
            if held.is_at_most(found) {
                best = Some(k);
                best_vram = vram;
            }
        }
    }
    match best {
        None => (None, None),
        Some(i) => {
            if best_vram.is_none() {
                notes.push(
                    "Windows detected a GPU but did not report VRAM. The wizard will choose RAM-first settings.".to_owned(),
                );
            }
            (devices[i].name.clone(), best_vram)
        },
    }
}

/// The largest of the given sizes.
pub open spec fn is_largest(sizes: Seq<u64>, size: u64) -> bool {
    sizes.contains(size) && forall|i: int| 0 <= i < sizes.len() ==> #[trigger] sizes[i] <= size
}

fn largest(sizes: &Vec<u64>) -> (r: Option<u64>)
    ensures
        match r {
            None => sizes.len() == 0,
            Some(size) => is_largest(sizes@, size),
        },
{
    let mut r: Option<u64> = None;
    for i in 0..sizes.len()
        invariant
            r is None ==> i == 0,
            r matches Some(size) ==> sizes@.contains(size) && forall|j: int|
                0 <= j < i ==> #[trigger] sizes@[j] <= size,
    {
        let held: bool = match r {
            Some(size) => size > sizes[i],
            None => false,
        };
        if !held {
            assert(sizes@.contains(sizes@[i as int]));
            r = Some(sizes[i]);
        }
    }
    r
}

/// What is known of the machine, from what the system reports.
pub fn detect_hardware(readings: SystemReadings, devices: &Vec<VideoController>) -> (profile:
    HardwareProfile)
    ensures
        profile.os_name@ == match readings.system_name {
            Some(name) => name@,
            None => readings.platform@,
        },
        profile.arch@ == readings.arch@,
        profile.cpu_cores == if readings.cpu_count > 1 {
            readings.cpu_count
        } else {
            1
        },
        profile.total_ram_gb == gigabytes(readings.total_memory as nat),
        profile.available_ram_gb == gigabytes(readings.available_memory as nat),
        readings.disk_spaces.len() == 0 ==> profile.disk_free_gb == double::whole(0),
        readings.disk_spaces.len() > 0 ==> exists|size: u64| #[trigger]
            is_largest(readings.disk_spaces@, size) && profile.disk_free_gb == gigabytes(
                size as nat,
            ),
        match profile.gpu_name {
            None => profile.vram_gb is None && forall|j: int|
                0 <= j < devices.len() ==> !#[trigger] is_usable(devices@[j]),
            Some(name) => exists|i: int|
                #[trigger] prevails(devices@, devices.len() as int, i) && name@
                    == devices@[i].name->0@ && profile.vram_gb == adapter_vram(devices@[i]),
        },
        text::views(profile.notes@) == match (profile.gpu_name, profile.vram_gb) {
            (None, _) => seq![no_gpu_note()],
            (Some(_), None) => seq![unknown_vram_note()],
            (Some(_), Some(_)) => Seq::empty(),
        },
        is_measured(profile),
{
    proof {
        lemma_gigabytes_finite(readings.total_memory as nat);
        lemma_gigabytes_finite(readings.available_memory as nat);
    }
    let mut notes: Vec<String> = Vec::new();
    assert(text::views(notes@) =~= Seq::empty());
    let (gpu_name, vram_gb) = detect_gpu(devices, &mut notes);
    if gpu_name.is_none() {
        assert(text::views(notes@) =~= Seq::empty());
        notes.push(
            "No discrete GPU was detected. The setup wizard will use conservative CPU-friendly settings.".to_owned(),
        );
    }
    let disk_free_gb: Double = match largest(&readings.disk_spaces) {
        Some(size) => bytes_to_gb(size),
        None => Double::whole(0),
    };
    HardwareProfile {
        os_name: match readings.system_name {
            Some(name) => name,
            None => readings.platform,
        },
        arch: readings.arch,
        cpu_cores: if readings.cpu_count > 1 { readings.cpu_count } else { 1 },
        total_ram_gb: bytes_to_gb(readings.total_memory),
        available_ram_gb: bytes_to_gb(readings.available_memory),
        disk_free_gb,
        gpu_name,
        vram_gb,
        notes,
    }
}

} // verus!
