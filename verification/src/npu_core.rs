use vstd::prelude::*;
use crate::text::{chars_equal, chars_of, decimal, digit_char, trim, trim_chars};
use crate::names::{core_indices_of_name, parse_core_indices};

verus! {

/// Whether a core can be handed out.
///
/// `Occupied` means the core's device file is held by some process;
/// `Occupied2` means the core is free itself but shares a processing element
/// with an occupied core (a fusion of cores, or a member of one).
#[derive(Debug, Clone, Copy, PartialEq, Eq, Structural, PartialOrd, Ord, Hash)]
pub enum CoreStatus {
    Available,
    Occupied,
    Occupied2,
}

/// The kind of NPU a core belongs to.
#[derive(Debug, Clone, Copy, PartialEq, Eq, Structural, PartialOrd, Ord, Hash)]
pub enum DeviceType {
    Warboy,
    Renegade,
}

/// A single processing element, or several of them fused into one core.
#[derive(Debug, Clone, PartialEq, Eq, PartialOrd, Ord, Hash)]
pub enum CoreType {
    Single(u8),
    Fusion(Vec<u8>),
}

/// The mathematical model of a `CoreType`.
pub enum CoreKind {
    Single(u8),
    Fusion(Seq<u8>),
}

impl View for CoreType {
    type V = CoreKind;

    open spec fn view(&self) -> CoreKind {
        match self {
            CoreType::Single(i) => CoreKind::Single(*i),
            CoreType::Fusion(v) => CoreKind::Fusion(v@),
        }
    }
}

/// The processing elements that a core is made of.
pub open spec fn indices_of(k: CoreKind) -> Seq<u8> {
    match k {
        CoreKind::Single(i) => seq![i],
        CoreKind::Fusion(v) => v,
    }
}

/// One NPU core (or fusion of cores) found on the machine.
#[derive(Debug, Clone, PartialEq, Eq, PartialOrd, Ord, Hash)]
pub struct Core {
    device_idx: u8,
    path: String,
    core_type: CoreType,
    device_type: DeviceType,
    status: CoreStatus,
}

/// The mathematical model of a `Core`.
pub struct CoreView {
    pub device_idx: u8,
    pub path: Seq<char>,
    pub core_type: CoreKind,
    pub device_type: DeviceType,
    pub status: CoreStatus,
}

impl View for Core {
    type V = CoreView;

    closed spec fn view(&self) -> CoreView {
        CoreView {
            device_idx: self.device_idx,
            path: self.path@,
            core_type: self.core_type@,
            device_type: self.device_type,
            status: self.status,
        }
    }
}

/// `c` with its status replaced by `s`.
pub open spec fn with_status_spec(c: CoreView, s: CoreStatus) -> CoreView {
    CoreView { status: s, ..c }
}

/// The indices of a core written out: one number, or several joined by '-'.
pub open spec fn indices_text(v: Seq<u8>) -> Seq<char>
    decreases v.len(),
{
    if v.len() == 0 {
        Seq::empty()
    } else if v.len() == 1 {
        decimal(v[0] as nat)
    } else {
        indices_text(v.drop_last()) + seq!['-'] + decimal(v.last() as nat)
    }
}

/// The display name of a core: "npu", the device index, ':', the core's indices.
pub open spec fn core_name(c: CoreView) -> Seq<char> {
    seq!['n', 'p', 'u'] + decimal(c.device_idx as nat) + seq![':'] + indices_text(
        indices_of(c.core_type),
    )
}

/// The decimal digits of `n`, appended to `out`.
pub fn push_decimal(out: &mut String, n: u8)
    ensures
        final(out)@ == old(out)@ + decimal(n as nat),
{
    if n >= 100 {
        out.append(digit_str(n / 100));
        out.append(digit_str((n / 10) % 10));
        out.append(digit_str(n % 10));
        proof {
            let m = n as nat;
            assert(decimal(m / 10 / 10) == seq![digit_char(m / 100)]);
            assert(decimal(m / 10) == decimal(m / 10 / 10).push(digit_char((m / 10) % 10)));
            assert(decimal(m) == decimal(m / 10).push(digit_char(m % 10)));
            assert(decimal(m) =~= seq![digit_char(m / 100), digit_char((m / 10) % 10)].push(
                digit_char(m % 10),
            ));
        }
    } else if n >= 10 {
        out.append(digit_str(n / 10));
        out.append(digit_str(n % 10));
        proof {
            let m = n as nat;
            assert(decimal(m / 10) == seq![digit_char(m / 10)]);
            assert(decimal(m) =~= seq![digit_char(m / 10), digit_char(m % 10)]);
        }
    } else {
        out.append(digit_str(n));
    }
}

/// The one-character string of the digit `d`.
fn digit_str(d: u8) -> (r: &'static str)
    requires
        d < 10,
    ensures
        r@ == seq![digit_char(d as nat)],
{
    proof {
        reveal_strlit("0");
        reveal_strlit("1");
        reveal_strlit("2");
        reveal_strlit("3");
        reveal_strlit("4");
        reveal_strlit("5");
        reveal_strlit("6");
        reveal_strlit("7");
        reveal_strlit("8");
        reveal_strlit("9");
    }
    match d {
        0 => "0",
        1 => "1",
        2 => "2",
        3 => "3",
        4 => "4",
        5 => "5",
        6 => "6",
        7 => "7",
        8 => "8",
        _ => "9",
    }
}

impl Core {
    pub fn new(
        device_idx: u8,
        path: String,
        core_type: CoreType,
        device_type: DeviceType,
        status: CoreStatus,
    ) -> (r: Core)
        ensures
            r@ == (CoreView {
                device_idx,
                path: path@,
                core_type: core_type@,
                device_type,
                status,
            }),
    {
        Core { device_idx, path, core_type, device_type, status }
    }

    pub fn device_idx(&self) -> (r: u8)
        ensures
            r == self@.device_idx,
    {
        self.device_idx
    }

    pub fn path(&self) -> (r: &str)
        ensures
            r@ == self@.path,
    {
        self.path.as_str()
    }

    pub fn core_type(&self) -> (r: &CoreType)
        ensures
            r@ == self@.core_type,
    {
        &self.core_type
    }

    pub fn device_type(&self) -> (r: DeviceType)
        ensures
            r == self@.device_type,
    {
        self.device_type
    }

    pub fn status(&self) -> (r: CoreStatus)
        ensures
            r == self@.status,
    {
        self.status
    }

    /// The same core with another status.
    pub fn with_status(self, status: CoreStatus) -> (r: Core)
        ensures
            r@ == with_status_spec(self@, status),
    {
        Core { status, ..self }
    }

    /// How many processing elements the core is made of.
    pub fn core_count(&self) -> (r: usize)
        ensures
            r == indices_of(self@.core_type).len(),
    {
        match &self.core_type {
            CoreType::Single(_) => 1,
            CoreType::Fusion(v) => v.len(),
        }
    }

    /// Whether the core is a fusion of processing elements.
    pub fn is_fusioned(&self) -> (r: bool)
        ensures
            r == (self@.core_type is Fusion),
    {
        match &self.core_type {
            CoreType::Single(_) => false,
            CoreType::Fusion(_) => true,
        }
    }

    /// The display name of the core, such as "npu0:1" or "npu0:0-1".
    pub fn name(&self) -> (r: String)
        ensures
            r@ == core_name(self@),
    {
        let mut out = String::new();
        proof {
            reveal_strlit("npu");
            reveal_strlit(":");
        }
        out.append("npu");
        push_decimal(&mut out, self.device_idx);
        out.append(":");
        match &self.core_type {
            CoreType::Single(i) => {
                push_decimal(&mut out, *i);
            },
            CoreType::Fusion(v) => {
                push_indices(&mut out, v);
            },
        }
        out
    }
}

/// The indices `v`, joined by '-', appended to `out`.
fn push_indices(out: &mut String, v: &Vec<u8>)
    ensures
        final(out)@ == old(out)@ + indices_text(v@),
{
    proof {
        reveal_strlit("-");
    }
    let ghost start = out@;
    let mut i: usize = 0;
    while i < v.len()
        invariant
            i <= v@.len(),
            out@ == start + indices_text(v@.take(i as int)),
        decreases v@.len() - i,
    {
        let ghost before = out@;
        if i > 0 {
            proof {
                reveal_strlit("-");
            }
            out.append("-");
        }
        let ghost mid = out@;
        push_decimal(out, v[i]);
        assert(v@.take(i + 1).drop_last() == v@.take(i as int));
        assert(v@.take(i + 1).last() == v@[i as int]);
        if i == 0 {
            assert(indices_text(v@.take(1)) == decimal(v@[0] as nat));
        } else {
            assert(indices_text(v@.take(i + 1)) == indices_text(v@.take(i as int)) + seq!['-']
                + decimal(v@[i as int] as nat));
            assert(mid == before + seq!['-']);
            assert(out@ =~= start + indices_text(v@.take(i + 1)));
        }
        i = i + 1;
    }
    assert(v@.take(v@.len() as int) == v@);
}


/// The kind of core that a list of processing elements makes.
pub open spec fn kind_of_indices(v: Seq<u8>) -> CoreKind {
    if v.len() == 1 {
        CoreKind::Single(v[0])
    } else {
        CoreKind::Fusion(v)
    }
}

/// The kind of core named by a core's device file name, if it names one.
pub open spec fn core_kind_of_name(name: Seq<char>) -> Option<CoreKind> {
    match core_indices_of_name(name) {
        Some(v) => Some(kind_of_indices(v)),
        None => None,
    }
}

impl CoreType {
    /// Reads a core's device file name, such as "npu0pe1" or "npu0pe0-1".
    pub fn try_from(name: &str) -> (r: Result<CoreType, ()>)
        ensures
            match core_kind_of_name(name@) {
                Some(k) => r matches Ok(t) && t@ == k,
                None => r is Err,
            },
    {
        let chars = chars_of(name);
        match parse_core_indices(&chars) {
            Some(v) => {
                if v.len() == 1 {
                    Ok(CoreType::Single(v[0]))
                } else {
                    Ok(CoreType::Fusion(v))
                }
            },
            None => Err(()),
        }
    }
}

/// The device type that a sysfs `device_type` file's text names.
pub open spec fn device_type_of_text(text: Seq<char>) -> Option<DeviceType> {
    if trim(text) == "Warboy"@ {
        Some(DeviceType::Warboy)
    } else if trim(text) == "Renegade"@ {
        Some(DeviceType::Renegade)
    } else {
        None
    }
}

impl DeviceType {
    /// Reads the text of a sysfs `device_type` file; surrounding white space
    /// is ignored.
    pub fn try_from(text: &str) -> (r: Result<DeviceType, ()>)
        ensures
            match device_type_of_text(text@) {
                Some(t) => r == Ok::<DeviceType, ()>(t),
                None => r is Err,
            },
    {
        let trimmed = trim_chars(&chars_of(text));
        if chars_equal(&trimmed, &chars_of("Warboy")) {
            Ok(DeviceType::Warboy)
        } else if chars_equal(&trimmed, &chars_of("Renegade")) {
            Ok(DeviceType::Renegade)
        } else {
            Err(())
        }
    }
}

} // verus!
