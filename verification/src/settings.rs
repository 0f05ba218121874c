//! The settings of a run, read from a TOML table.

use crate::addr::{dotted, dotted_injective, parse_ip};
use crate::lengths::{MAX_PKT_LEN, MIN_PKT_LEN};
use vstd::prelude::*;

verus! {

/// A TOML value.
#[verifier::external_type_specification]
#[verifier::external_body]
pub struct ExTomlValue(toml::Value);

/// A value that a setting can have.
#[derive(Debug)]
pub enum Setting {
    Text(String),
    Integer(i64),
    /// A floating-point number, as the bits of its binary64 form.
    Float(u64),
    Boolean(bool),
    /// A date, an array or a table.
    Other,
}

/// What a setting's value stands for.
pub enum SettingView {
    Text(Seq<char>),
    Integer(i64),
    Float(u64),
    Boolean(bool),
    Other,
}

impl View for Setting {
    type V = SettingView;

    open spec fn view(&self) -> SettingView {
        match self {
            Setting::Text(text) => SettingView::Text(text@),
            Setting::Integer(n) => SettingView::Integer(*n),
            Setting::Float(bits) => SettingView::Float(*bits),
            Setting::Boolean(b) => SettingView::Boolean(*b),
            Setting::Other => SettingView::Other,
        }
    }
}

/// What a TOML value holds two levels down: for a table of tables, the values of the inner
/// tables by the two keys that lead to them.
pub uninterp spec fn settings_table(value: toml::Value) -> Map<
    (Seq<char>, Seq<char>),
    SettingView,
>;

/// `toml::Value::get` with the key of a section, and again on what it gives with the key of a
/// setting: the setting's value, or `None` where either key is not there.
#[verifier::external_body]
fn get_setting(value: &toml::Value, section: &str, key: &str) -> (setting: Option<Setting>)
    ensures
        match setting {
            Some(found) => settings_table(*value).contains_key((section@, key@)) && found@
                == settings_table(*value)[(section@, key@)],
            None => !settings_table(*value).contains_key((section@, key@)),
        },
{
    match value.get(section)?.get(key)? {
        toml::Value::String(text) => Some(Setting::Text(text.clone())),
        toml::Value::Integer(n) => Some(Setting::Integer(*n)),
        toml::Value::Float(x) => Some(Setting::Float(x.to_bits())),
        toml::Value::Boolean(b) => Some(Setting::Boolean(*b)),
        toml::Value::Datetime(_) => Some(Setting::Other),
        toml::Value::Array(_) => Some(Setting::Other),
        toml::Value::Table(_) => Some(Setting::Other),
    }
}

/// The settings that a run needs.
#[derive(Clone, Copy, Debug, PartialEq, Eq, Structural)]
pub enum Key {
    Rate,
    Time,
    Save,
    Send,
    Receive,
    Log,
    Dataset,
    Src,
    Dst,
    IsolateSend,
    CoreSend,
    IsolateReceive,
    CoreReceive,
    Priority,
    Input,
    Output,
}

impl Key {
    /// The place of the setting in the order in which the settings are read.
    pub open spec fn rank(self) -> int {
        match self {
            Key::Rate => 0,
            Key::Time => 1,
            Key::Save => 2,
            Key::Send => 3,
            Key::Receive => 4,
            Key::Log => 5,
            Key::Dataset => 6,
            Key::Src => 7,
            Key::Dst => 8,
            Key::IsolateSend => 9,
            Key::CoreSend => 10,
            Key::IsolateReceive => 11,
            Key::CoreReceive => 12,
            Key::Priority => 13,
            Key::Input => 14,
            Key::Output => 15,
        }
    }

    /// The section and the name under which the setting stands.
    pub open spec fn place(self) -> (Seq<char>, Seq<char>) {
        match self {
            Key::Rate => ("general"@, "rate"@),
            Key::Time => ("general"@, "time"@),
            Key::Save => ("general"@, "save"@),
            Key::Send => ("general"@, "send"@),
            Key::Receive => ("general"@, "receive"@),
            Key::Log => ("general"@, "log"@),
            Key::Dataset => ("general"@, "dataset"@),
            Key::Src => ("ip"@, "src"@),
            Key::Dst => ("ip"@, "dst"@),
            Key::IsolateSend => ("isolation"@, "isolate_send"@),
            Key::CoreSend => ("isolation"@, "core_send"@),
            Key::IsolateReceive => ("isolation"@, "isolate_receive"@),
            Key::CoreReceive => ("isolation"@, "core_receive"@),
            Key::Priority => ("isolation"@, "priority"@),
            Key::Input => ("interface"@, "input"@),
            Key::Output => ("interface"@, "output"@),
        }
    }

    fn path(self) -> (path: (&'static str, &'static str))
        ensures
            (path.0@, path.1@) == self.place(),
    {
        match self {
            Key::Rate => ("general", "rate"),
            Key::Time => ("general", "time"),
            Key::Save => ("general", "save"),
            Key::Send => ("general", "send"),
            Key::Receive => ("general", "receive"),
            Key::Log => ("general", "log"),
            Key::Dataset => ("general", "dataset"),
            Key::Src => ("ip", "src"),
            Key::Dst => ("ip", "dst"),
            Key::IsolateSend => ("isolation", "isolate_send"),
            Key::CoreSend => ("isolation", "core_send"),
            Key::IsolateReceive => ("isolation", "isolate_receive"),
            Key::CoreReceive => ("isolation", "core_receive"),
            Key::Priority => ("isolation", "priority"),
            Key::Input => ("interface", "input"),
            Key::Output => ("interface", "output"),
        }
    }

    /// What is said where the setting does not have the type that it must have.
    pub open spec fn complaint(self) -> Seq<char> {
        match self {
            Key::Rate => "Rate setting not found"@,
            Key::Time => "Sending time setting not found"@,
            Key::Save => "Save setting not found"@,
            Key::Send => "Send setting not found"@,
            Key::Receive => "Receive setting not found"@,
            Key::Log => "Is log setting not found"@,
            Key::Dataset => "Dataset setting not found"@,
            Key::Src => "Src ip address not found"@,
            Key::Dst => "Dst ip address not found"@,
            Key::IsolateSend => "Isolate send setting not found"@,
            Key::CoreSend => "Core send setting not found"@,
            Key::IsolateReceive => "Isolate receive setting not found"@,
            Key::CoreReceive => "Core receive setting not found"@,
            Key::Priority => "Thread priority setting not found"@,
            Key::Input => "Input interface setting not found"@,
            Key::Output => "Output interface setting not found"@,
        }
    }

    /// `value` has the type that the setting must have.
    pub open spec fn fits(self, value: SettingView) -> bool {
        match self {
            Key::Rate | Key::Time => value is Float,
            Key::Save
            | Key::Send
            | Key::Receive
            | Key::Log
            | Key::IsolateSend
            | Key::IsolateReceive => value is Boolean,
            Key::Dataset | Key::Src | Key::Dst | Key::Input | Key::Output => value is Text,
            Key::CoreSend | Key::CoreReceive | Key::Priority => value is Integer,
        }
    }

    /// The setting is an address.
    pub open spec fn is_address(self) -> bool {
        self is Src || self is Dst
    }
}

/// Why settings are refused.
#[derive(Clone, Copy, Debug, PartialEq, Eq, Structural)]
pub enum SettingsError {
    /// The setting is not there.
    Missing(Key),
    /// The setting does not have the type that it must have.
    WrongType(Key),
    /// The setting is no IPv4 address.
    NotAnAddress(Key),
}

impl SettingsError {
    /// What is said of the error.
    pub open spec fn text(self) -> Seq<char> {
        match self {
            SettingsError::Missing(_) => "index not found"@,
            SettingsError::WrongType(key) => key.complaint(),
            SettingsError::NotAnAddress(
                _,
            ) => "Failed to parse IP address: invalid IPv4 address syntax"@,
        }
    }

    /// What to say of the error.
    pub fn message(&self) -> (message: &'static str)
        ensures
            message@ == self.text(),
    {
        match self {
            SettingsError::Missing(_) => "index not found",
            SettingsError::WrongType(key) => match key {
                Key::Rate => "Rate setting not found",
                Key::Time => "Sending time setting not found",
                Key::Save => "Save setting not found",
                Key::Send => "Send setting not found",
                Key::Receive => "Receive setting not found",
                Key::Log => "Is log setting not found",
                Key::Dataset => "Dataset setting not found",
                Key::Src => "Src ip address not found",
                Key::Dst => "Dst ip address not found",
                Key::IsolateSend => "Isolate send setting not found",
                Key::CoreSend => "Core send setting not found",
                Key::IsolateReceive => "Isolate receive setting not found",
                Key::CoreReceive => "Core receive setting not found",
                Key::Priority => "Thread priority setting not found",
                Key::Input => "Input interface setting not found",
                Key::Output => "Output interface setting not found",
            },
            SettingsError::NotAnAddress(
                _,
            ) => "Failed to parse IP address: invalid IPv4 address syntax",
        }
    }
}

/// `text` is an IPv4 address in dotted decimal.
pub open spec fn spells_address(text: Seq<char>) -> bool {
    exists|addr: [u8; 4]| text == #[trigger] dotted(addr@)
}

/// What is wrong with `entry` as the value of the setting `key`, if anything.
pub open spec fn problem(entry: Option<SettingView>, key: Key) -> Option<SettingsError> {
    match entry {
        None => Some(SettingsError::Missing(key)),
        Some(value) => if !key.fits(value) {
            Some(SettingsError::WrongType(key))
        } else if key.is_address() && !spells_address(value->Text_0) {
            Some(SettingsError::NotAnAddress(key))
        } else {
            None
        },
    }
}

/// Nothing is wrong with the settings that are read before the one of the given rank.
pub open spec fn sound_below(entry: spec_fn(Key) -> Option<SettingView>, rank: int) -> bool {
    forall|key: Key| (#[trigger] key.rank()) < rank ==> problem(entry(key), key) is None
}

/// `error` is what is wrong with the first setting, in reading order, with which something is.
pub open spec fn first_problem(
    entry: spec_fn(Key) -> Option<SettingView>,
    error: SettingsError,
) -> bool {
    exists|key: Key|
        problem(entry(key), key) == Some(error) && sound_below(entry, #[trigger] key.rank())
}

/// What is wrong with the next setting is the first problem, and if nothing is, the settings are
/// sound one further.
proof fn lemma_read(entry: spec_fn(Key) -> Option<SettingView>, key: Key)
    requires
        sound_below(entry, key.rank()),
    ensures
        match problem(entry(key), key) {
            Some(error) => first_problem(entry, error),
            None => sound_below(entry, key.rank() + 1),
        },
{
    assert forall|other: Key|
        problem(entry(key), key) is None && (#[trigger] other.rank()) < key.rank()
            + 1 implies problem(entry(other), other) is None by {
        if other.rank() == key.rank() {
            assert(other == key);
        }
    }
}

/// Where the lengths of the packets come from.
#[derive(Clone, Copy, Debug, PartialEq, Eq, Structural)]
pub enum Dataset {
    /// Lengths spread evenly over what the link carries.
    Uniform,
    /// Lengths of a recorded trace.
    Caida,
    /// A name that says nothing.
    Unknown,
}

/// The dataset that a name stands for.
pub open spec fn named_dataset(name: Seq<char>) -> Dataset {
    if name == ""@ {
        Dataset::Uniform
    } else if name == "caida"@ {
        Dataset::Caida
    } else {
        Dataset::Unknown
    }
}

impl Dataset {
    /// The dataset with the given name.
    pub fn from_name(name: &String) -> (dataset: Dataset)
        ensures
            dataset == named_dataset(name@),
            dataset is Uniform <==> name@.len() == 0,
            dataset is Caida <==> name@ == seq!['c', 'a', 'i', 'd', 'a'],
    {
        proof {
            reveal_strlit("");
            reveal_strlit("caida");
            assert("caida"@ =~= seq!['c', 'a', 'i', 'd', 'a']);
            if name@.len() == 0 {
                assert(name@ =~= ""@);
            }
        }
        if *name == "".to_owned() {
            Dataset::Uniform
        } else if *name == "caida".to_owned() {
            Dataset::Caida
        } else {
            Dataset::Unknown
        }
    }

    /// The lengths are taken from the trace; else they are drawn at random.
    pub fn is_trace(self) -> (trace: bool)
        ensures
            trace == (self is Caida),
    {
        match self {
            Dataset::Caida => true,
            _ => false,
        }
    }

    /// Twice the average size of a packet on the wire: of the even spread the sum of its two
    /// ends, of the trace twice its average, and twice what encapsulation adds to a packet.
    pub open spec fn doubled_average(self) -> int {
        match self {
            Dataset::Uniform => (MIN_PKT_LEN + MAX_PKT_LEN) + 2 * ENCAPSULATION_LEN,
            Dataset::Caida => 2 * (AVG_CAIDA_LEN + ENCAPSULATION_LEN),
            Dataset::Unknown => 0,
        }
    }

    /// Twice the average size of a packet on the wire, which is a whole number.
    pub fn doubled_average_length(self) -> (doubled: u32)
        ensures
            doubled == self.doubled_average(),
            self is Uniform ==> doubled == 29 + 1400 + 2 * 100,
            self is Caida ==> doubled == 2 * 900 + 2 * 100,
            self is Unknown ==> doubled == 0,
    {
        match self {
            Dataset::Uniform => (MIN_PKT_LEN + MAX_PKT_LEN) as u32 + 2 * ENCAPSULATION_LEN,
            Dataset::Caida => 2 * (AVG_CAIDA_LEN + ENCAPSULATION_LEN),
            Dataset::Unknown => 0,
        }
    }
}

/// The average length in the recorded trace.
pub const AVG_CAIDA_LEN: u32 = 900;

/// What wrapping and the WireGuard tunnel add to a packet.
pub const ENCAPSULATION_LEN: u32 = 100;

/// The settings of a run.
#[derive(Debug)]
pub struct Settings {
    /// The rate in megabits per second, as the bits of its binary64 form.
    pub rate_bits: u64,
    /// The sending time in seconds, as the bits of its binary64 form.
    pub time_bits: u64,
    pub save: bool,
    pub send: bool,
    pub receive: bool,
    pub log: bool,
    pub dataset: Dataset,
    pub ip_src: [u8; 4],
    pub ip_dst: [u8; 4],
    pub isolate_send: bool,
    pub core_send: usize,
    pub isolate_receive: bool,
    pub core_receive: usize,
    pub priority: i32,
    pub input: String,
    pub output: String,
}

impl Settings {
    /// What is logged at the start of a run.
    pub open spec fn log_text(&self) -> Seq<Seq<char>> {
        if self.log {
            seq![
                "Sending Ethernet frames on interface "@ + self.input@ + "..."@,
                "Receiving Ethernet frames on interface "@ + self.output@ + "..."@,
                "Sending on specific cores = "@ + (if self.isolate_send {
                    "true"@
                } else {
                    "false"@
                }),
            ]
        } else {
            Seq::empty()
        }
    }

    /// The lines to log at the start of a run: the two interfaces and whether the sending side
    /// has a core of its own, or nothing where nothing is to be logged.
    pub fn log_lines(&self) -> (lines: Vec<String>)
        ensures
            lines@.map_values(|line: String| line@) == self.log_text(),
            lines@.len() == (if self.log {
                3int
            } else {
                0
            }),
    {
        let mut lines: Vec<String> = Vec::new();
        if self.log {
            let mut line: String = "Sending Ethernet frames on interface ".to_owned();
            line.append(self.input.as_str());
            line.append("...");
            lines.push(line);
            let mut line: String = "Receiving Ethernet frames on interface ".to_owned();
            line.append(self.output.as_str());
            line.append("...");
            lines.push(line);
            let mut line: String = "Sending on specific cores = ".to_owned();
            line.append(
                if self.isolate_send {
                    "true"
                } else {
                    "false"
                },
            );
            lines.push(line);
        }
        assert(lines@.map_values(|line: String| line@) =~= self.log_text());
        lines
    }
}

/// What `n` becomes when it is cast to `usize`.
pub open spec fn wrapped_usize(n: i64) -> int {
    n as int % (usize::MAX + 1)
}

/// What `n` becomes when it is cast to `i32`: the number of that type which differs from `n` by
/// a multiple of 2 to the 32.
pub open spec fn wrapped_i32(n: i64) -> int {
    (n + 0x8000_0000) % 0x1_0000_0000 - 0x8000_0000
}

/// `settings` are what the entries say.
pub open spec fn says(entry: spec_fn(Key) -> Option<SettingView>, settings: Settings) -> bool {
    &&& entry(Key::Rate) == Some(SettingView::Float(settings.rate_bits))
    &&& entry(Key::Time) == Some(SettingView::Float(settings.time_bits))
    &&& entry(Key::Save) == Some(SettingView::Boolean(settings.save))
    &&& entry(Key::Send) == Some(SettingView::Boolean(settings.send))
    &&& entry(Key::Receive) == Some(SettingView::Boolean(settings.receive))
    &&& entry(Key::Log) == Some(SettingView::Boolean(settings.log))
    &&& settings.dataset == named_dataset(entry(Key::Dataset)->0->Text_0)
    &&& entry(Key::Src) == Some(SettingView::Text(dotted(settings.ip_src@)))
    &&& entry(Key::Dst) == Some(SettingView::Text(dotted(settings.ip_dst@)))
    &&& entry(Key::IsolateSend) == Some(SettingView::Boolean(settings.isolate_send))
    &&& settings.core_send == wrapped_usize(entry(Key::CoreSend)->0->Integer_0)
    &&& entry(Key::IsolateReceive) == Some(SettingView::Boolean(settings.isolate_receive))
    &&& settings.core_receive == wrapped_usize(entry(Key::CoreReceive)->0->Integer_0)
    &&& settings.priority == wrapped_i32(entry(Key::Priority)->0->Integer_0)
    &&& entry(Key::Input) == Some(SettingView::Text(settings.input@))
    &&& entry(Key::Output) == Some(SettingView::Text(settings.output@))
}

fn to_usize(n: i64) -> (cast: usize)
    ensures
        cast == wrapped_usize(n),
{
    proof {
        assert(usize::BITS == 32 ==> n as usize == (n as u64) % 0x1_0000_0000) by (bit_vector);
        assert(usize::BITS == 64 ==> n as usize == n as u64) by (bit_vector);
        assert(n >= 0 ==> n as u64 == n) by (bit_vector);
        assert(n < 0 ==> n as u64 == n + 0x1_0000_0000_0000_0000) by (bit_vector);
        vstd::layout::unsigned_int_max_values();
        vstd::arithmetic::power2::lemma2_to64();
        assert(usize::BITS == 32 || usize::BITS == 64);
        if usize::BITS == 64 {
            if n >= 0 {
                vstd::arithmetic::div_mod::lemma_small_mod(n as nat, usize::MAX as nat + 1);
            } else {
                vstd::arithmetic::div_mod::lemma_small_mod(
                    (n + 0x1_0000_0000_0000_0000) as nat,
                    usize::MAX as nat + 1,
                );
                vstd::arithmetic::div_mod::lemma_mod_add_multiples_vanish(
                    n as int,
                    usize::MAX + 1,
                );
            }
        }
    }
    n as usize
}

fn to_i32(n: i64) -> (cast: i32)
    ensures
        cast == wrapped_i32(n),
{
    assert(n as i32 == (n + 0x8000_0000) % 0x1_0000_0000 - 0x8000_0000) by (bit_vector);
    n as i32
}

/// The entries of the settings that a run needs, as they were found; `None` where there is none.
#[derive(Debug)]
pub struct Entries {
    pub rate: Option<Setting>,
    pub time: Option<Setting>,
    pub save: Option<Setting>,
    pub send: Option<Setting>,
    pub receive: Option<Setting>,
    pub log: Option<Setting>,
    pub dataset: Option<Setting>,
    pub src: Option<Setting>,
    pub dst: Option<Setting>,
    pub isolate_send: Option<Setting>,
    pub core_send: Option<Setting>,
    pub isolate_receive: Option<Setting>,
    pub core_receive: Option<Setting>,
    pub priority: Option<Setting>,
    pub input: Option<Setting>,
    pub output: Option<Setting>,
}

/// What an entry stands for.
pub open spec fn entry_view(entry: Option<Setting>) -> Option<SettingView> {
    match entry {
        Some(setting) => Some(setting@),
        None => None,
    }
}

impl Entries {
    /// The entry of the setting `key`.
    pub open spec fn of(self, key: Key) -> Option<SettingView> {
        entry_view(
            match key {
                Key::Rate => self.rate,
                Key::Time => self.time,
                Key::Save => self.save,
                Key::Send => self.send,
                Key::Receive => self.receive,
                Key::Log => self.log,
                Key::Dataset => self.dataset,
                Key::Src => self.src,
                Key::Dst => self.dst,
                Key::IsolateSend => self.isolate_send,
                Key::CoreSend => self.core_send,
                Key::IsolateReceive => self.isolate_receive,
                Key::CoreReceive => self.core_receive,
                Key::Priority => self.priority,
                Key::Input => self.input,
                Key::Output => self.output,
            },
        )
    }

    /// The entries by their settings.
    pub open spec fn entry(self) -> spec_fn(Key) -> Option<SettingView> {
        |key: Key| self.of(key)
    }

    fn get(&self, key: Key) -> (entry: &Option<Setting>)
        ensures
            entry_view(*entry) == self.of(key),
    {
        match key {
            Key::Rate => &self.rate,
            Key::Time => &self.time,
            Key::Save => &self.save,
            Key::Send => &self.send,
            Key::Receive => &self.receive,
            Key::Log => &self.log,
            Key::Dataset => &self.dataset,
            Key::Src => &self.src,
            Key::Dst => &self.dst,
            Key::IsolateSend => &self.isolate_send,
            Key::CoreSend => &self.core_send,
            Key::IsolateReceive => &self.isolate_receive,
            Key::CoreReceive => &self.core_receive,
            Key::Priority => &self.priority,
            Key::Input => &self.input,
            Key::Output => &self.output,
        }
    }
}

impl Entries {
    /// The value of the setting `key`, which must be a floating-point number, where nothing is
    /// wrong with the settings before it.
    fn float(&self, key: Key) -> (found: Result<u64, SettingsError>)
        requires
            key.fits(SettingView::Float(0)),
            sound_below(self.entry(), key.rank()),
        ensures
            match found {
                Ok(v) => self.of(key) == Some(SettingView::Float(v)) && sound_below(
                    self.entry(),
                    key.rank() + 1,
                ),
                Err(error) => first_problem(self.entry(), error),
            },
    {
        proof {
            lemma_read(self.entry(), key);
        }
        match self.get(key) {
            Some(Setting::Float(v)) => Ok(*v),
            Some(_) => Err(SettingsError::WrongType(key)),
            None => Err(SettingsError::Missing(key)),
        }
    }

    /// The value of the setting `key`, which must be a truth value, where nothing is wrong with the
    /// settings before it.
    fn boolean(&self, key: Key) -> (found: Result<bool, SettingsError>)
        requires
            key.fits(SettingView::Boolean(true)),
            sound_below(self.entry(), key.rank()),
        ensures
            match found {
                Ok(v) => self.of(key) == Some(SettingView::Boolean(v)) && sound_below(
                    self.entry(),
                    key.rank() + 1,
                ),
                Err(error) => first_problem(self.entry(), error),
            },
    {
        proof {
            lemma_read(self.entry(), key);
        }
        match self.get(key) {
            Some(Setting::Boolean(v)) => Ok(*v),
            Some(_) => Err(SettingsError::WrongType(key)),
            None => Err(SettingsError::Missing(key)),
        }
    }

    /// The value of the setting `key`, which must be an integer, where nothing is wrong with the
    /// settings before it.
    fn integer(&self, key: Key) -> (found: Result<i64, SettingsError>)
        requires
            key.fits(SettingView::Integer(0)),
            sound_below(self.entry(), key.rank()),
        ensures
            match found {
                Ok(v) => self.of(key) == Some(SettingView::Integer(v)) && sound_below(
                    self.entry(),
                    key.rank() + 1,
                ),
                Err(error) => first_problem(self.entry(), error),
            },
    {
        proof {
            lemma_read(self.entry(), key);
        }
        match self.get(key) {
            Some(Setting::Integer(v)) => Ok(*v),
            Some(_) => Err(SettingsError::WrongType(key)),
            None => Err(SettingsError::Missing(key)),
        }
    }

    /// The value of the setting `key`, which must be a text, where nothing is wrong with the
    /// settings before it.
    fn text(&self, key: Key) -> (found: Result<String, SettingsError>)
        requires
            key.fits(SettingView::Text(Seq::empty())),
            !key.is_address(),
            sound_below(self.entry(), key.rank()),
        ensures
            match found {
                Ok(v) => self.of(key) == Some(SettingView::Text(v@)) && sound_below(
                    self.entry(),
                    key.rank() + 1,
                ),
                Err(error) => first_problem(self.entry(), error),
            },
    {
        proof {
            lemma_read(self.entry(), key);
        }
        match self.get(key) {
            Some(Setting::Text(v)) => Ok(v.clone()),
            Some(_) => Err(SettingsError::WrongType(key)),
            None => Err(SettingsError::Missing(key)),
        }
    }

    /// The value of the setting `key`, which must be an IPv4 address, where nothing is wrong with
    /// the settings before it.
    fn address(&self, key: Key) -> (found: Result<[u8; 4], SettingsError>)
        requires
            key.is_address(),
            sound_below(self.entry(), key.rank()),
        ensures
            match found {
                Ok(addr) => self.of(key) == Some(SettingView::Text(dotted(addr@))) && sound_below(
                    self.entry(),
                    key.rank() + 1,
                ),
                Err(error) => first_problem(self.entry(), error),
            },
    {
        proof {
            lemma_read(self.entry(), key);
        }
        match self.get(key) {
            Some(Setting::Text(text)) => match parse_ip(text.clone()) {
                Ok(addr) => Ok(addr),
                Err(_) => Err(SettingsError::NotAnAddress(key)),
            },
            Some(_) => Err(SettingsError::WrongType(key)),
            None => Err(SettingsError::Missing(key)),
        }
    }
}

/// `read` is what the entries give: the settings that they say, or else what is wrong with the
/// first of them.
pub open spec fn interprets(
    entry: spec_fn(Key) -> Option<SettingView>,
    read: Result<Settings, SettingsError>,
) -> bool {
    match read {
        Ok(settings) => says(entry, settings) && forall|key: Key|
            (#[trigger] problem(entry(key), key)) is None,
        Err(error) => first_problem(entry, error),
    }
}

/// The entries decide everything: whatever they give is given every time, the same error or
/// the same settings.
pub proof fn entries_decide(
    entry: spec_fn(Key) -> Option<SettingView>,
    first: Result<Settings, SettingsError>,
    second: Result<Settings, SettingsError>,
)
    requires
        interprets(entry, first),
        interprets(entry, second),
    ensures
        match (first, second) {
            (Ok(a), Ok(b)) => {
                &&& a.rate_bits == b.rate_bits && a.time_bits == b.time_bits
                &&& a.save == b.save && a.send == b.send && a.receive == b.receive
                &&& a.log == b.log && a.dataset == b.dataset
                &&& a.ip_src@ == b.ip_src@ && a.ip_dst@ == b.ip_dst@
                &&& a.isolate_send == b.isolate_send && a.core_send == b.core_send
                &&& a.isolate_receive == b.isolate_receive && a.core_receive == b.core_receive
                &&& a.priority == b.priority && a.input@ == b.input@ && a.output@ == b.output@
            },
            (Err(a), Err(b)) => a == b,
            _ => false,
        },
{
    match (first, second) {
        (Ok(a), Ok(b)) => {
            dotted_injective(a.ip_src, b.ip_src);
            dotted_injective(a.ip_dst, b.ip_dst);
        },
        (Err(a), Err(b)) => {
            let ka = choose|key: Key|
                problem(entry(key), key) == Some(a) && sound_below(entry, #[trigger] key.rank());
            let kb = choose|key: Key|
                problem(entry(key), key) == Some(b) && sound_below(entry, #[trigger] key.rank());
            assert(!(ka.rank() < kb.rank()) && !(kb.rank() < ka.rank()));
            assert(ka == kb);
        },
        _ => {},
    }
}

/// Makes settings of their entries. The first entry, in reading order, with which something is
/// wrong decides the error.
pub fn interpret_settings(entries: &Entries) -> (read: Result<Settings, SettingsError>)
    ensures
        interprets(entries.entry(), read),
{
    let rate_bits = entries.float(Key::Rate)?;
    let time_bits = entries.float(Key::Time)?;
    let save = entries.boolean(Key::Save)?;
    let send = entries.boolean(Key::Send)?;
    let receive = entries.boolean(Key::Receive)?;
    let log = entries.boolean(Key::Log)?;
    let dataset = entries.text(Key::Dataset)?;
    let ip_src = entries.address(Key::Src)?;
    let ip_dst = entries.address(Key::Dst)?;
    let isolate_send = entries.boolean(Key::IsolateSend)?;
    let core_send = entries.integer(Key::CoreSend)?;
    let isolate_receive = entries.boolean(Key::IsolateReceive)?;
    let core_receive = entries.integer(Key::CoreReceive)?;
    let priority = entries.integer(Key::Priority)?;
    let input = entries.text(Key::Input)?;
    let output = entries.text(Key::Output)?;
    proof {
        assert forall|key: Key| (#[trigger] problem((entries.entry())(key), key)) is None by {
            assert(key.rank() < Key::Output.rank() + 1);
        }
    }
    Ok(
        Settings {
            rate_bits,
            time_bits,
            save,
            send,
            receive,
            log,
            dataset: Dataset::from_name(&dataset),
            ip_src,
            ip_dst,
            isolate_send,
            core_send: to_usize(core_send),
            isolate_receive,
            core_receive: to_usize(core_receive),
            priority: to_i32(priority),
            input,
            output,
        },
    )
}

/// The setting `key` of a table, if the table has it.
pub open spec fn lookup(
    table: Map<(Seq<char>, Seq<char>), SettingView>,
    key: Key,
) -> Option<SettingView> {
    if table.contains_key(key.place()) {
        Some(table[key.place()])
    } else {
        None
    }
}

fn find(value: &toml::Value, key: Key) -> (entry: Option<Setting>)
    ensures
        entry_view(entry) == lookup(settings_table(*value), key),
{
    let (section, name) = key.path();
    get_setting(value, section, name)
}

/// Reads the settings of a run from a TOML table of tables.
pub fn read_settings(value: &toml::Value) -> (read: Result<Settings, SettingsError>)
    ensures
        interprets(|key: Key| lookup(settings_table(*value), key), read),
{
    let entries = Entries {
        rate: find(value, Key::Rate),
        time: find(value, Key::Time),
        save: find(value, Key::Save),
        send: find(value, Key::Send),
        receive: find(value, Key::Receive),
        log: find(value, Key::Log),
        dataset: find(value, Key::Dataset),
        src: find(value, Key::Src),
        dst: find(value, Key::Dst),
        isolate_send: find(value, Key::IsolateSend),
        core_send: find(value, Key::CoreSend),
        isolate_receive: find(value, Key::IsolateReceive),
        core_receive: find(value, Key::CoreReceive),
        priority: find(value, Key::Priority),
        input: find(value, Key::Input),
        output: find(value, Key::Output),
    };
    assert(entries.entry() =~= (|key: Key| lookup(settings_table(*value), key)));
    interpret_settings(&entries)
}

/// The cast to `usize` leaves a number that fits as it is, and changes any other by a multiple of
/// how many numbers there are.
pub proof fn usize_cast_is_modular(n: i64)
    ensures
        0 <= wrapped_usize(n) <= usize::MAX,
        0 <= n <= usize::MAX ==> wrapped_usize(n) == n,
        (n - wrapped_usize(n)) % (usize::MAX + 1) == 0,
{
    let m = usize::MAX + 1;
    vstd::arithmetic::div_mod::lemma_mod_bound(n as int, m);
    if 0 <= n <= usize::MAX {
        vstd::arithmetic::div_mod::lemma_small_mod(n as nat, m as nat);
    }
    vstd::arithmetic::div_mod::lemma_fundamental_div_mod(n as int, m);
    vstd::arithmetic::div_mod::lemma_mod_multiples_basic(n as int / m, m);
    assert(n - wrapped_usize(n) == (n as int / m) * m) by (nonlinear_arith)
        requires
            n as int == m * (n as int / m) + wrapped_usize(n),
    ;
}

/// The cast to `i32` leaves a number that fits as it is, and changes any other by a multiple of 2
/// to the 32.
pub proof fn i32_cast_is_modular(n: i64)
    ensures
        i32::MIN <= wrapped_i32(n) <= i32::MAX,
        i32::MIN <= n <= i32::MAX ==> wrapped_i32(n) == n,
        (n - wrapped_i32(n)) % 0x1_0000_0000 == 0,
{
}

/// The settings are those that the entries hold, each in its own entry. Where a core or the
/// priority fits its type, it is the integer of its entry; the addresses are the ones that their
/// entries spell.
pub proof fn settings_are_what_entries_hold(entries: Entries, settings: Settings)
    requires
        interprets(entries.entry(), Ok(settings)),
    ensures
        entries.rate == Some(Setting::Float(settings.rate_bits)),
        entries.time == Some(Setting::Float(settings.time_bits)),
        entries.save == Some(Setting::Boolean(settings.save)),
        entries.send == Some(Setting::Boolean(settings.send)),
        entries.receive == Some(Setting::Boolean(settings.receive)),
        entries.log == Some(Setting::Boolean(settings.log)),
        entries.isolate_send == Some(Setting::Boolean(settings.isolate_send)),
        entries.isolate_receive == Some(Setting::Boolean(settings.isolate_receive)),
        entries.dataset is Some && entries.dataset->0 is Text,
        settings.dataset is Uniform <==> entries.dataset->0->Text_0@.len() == 0,
        settings.dataset is Caida <==> entries.dataset->0->Text_0@ == seq![
            'c',
            'a',
            'i',
            'd',
            'a',
        ],
        entries.src is Some && entries.src->0 is Text && entries.src->0->Text_0@
            == dotted(settings.ip_src@),
        entries.dst is Some && entries.dst->0 is Text && entries.dst->0->Text_0@
            == dotted(settings.ip_dst@),
        entries.core_send is Some && entries.core_send->0 is Integer,
        entries.core_receive is Some && entries.core_receive->0 is Integer,
        entries.priority is Some && entries.priority->0 is Integer,
        casts_to_usize(entries.core_send->0->Integer_0, settings.core_send),
        casts_to_usize(entries.core_receive->0->Integer_0, settings.core_receive),
        casts_to_i32(entries.priority->0->Integer_0, settings.priority),
        entries.input is Some && entries.input->0 is Text && entries.input->0->Text_0@
            == settings.input@,
        entries.output is Some && entries.output->0 is Text && entries.output->0->Text_0@
            == settings.output@,
{
    let entry = entries.entry();
    assert(forall|key: Key| #[trigger] entry(key) == entries.of(key));
    lemma_settings_told(entry, settings);
}

/// `to` is `n`, or differs from it by a multiple of how many numbers a `usize` can be.
pub open spec fn casts_to_usize(n: i64, to: usize) -> bool {
    &&& 0 <= n <= usize::MAX ==> to == n
    &&& (n - to) % (usize::MAX + 1) == 0
}

/// `to` is `n`, or differs from it by a multiple of 2 to the 32.
pub open spec fn casts_to_i32(n: i64, to: i32) -> bool {
    &&& i32::MIN <= n <= i32::MAX ==> to == n
    &&& (n - to) % 0x1_0000_0000 == 0
}

proof fn lemma_settings_told(entry: spec_fn(Key) -> Option<SettingView>, settings: Settings)
    requires
        interprets(entry, Ok(settings)),
    ensures
        says(entry, settings),
        entry(Key::Dataset) is Some && entry(Key::Dataset)->0 is Text,
        entry(Key::CoreSend) is Some && entry(Key::CoreSend)->0 is Integer,
        entry(Key::CoreReceive) is Some && entry(Key::CoreReceive)->0 is Integer,
        entry(Key::Priority) is Some && entry(Key::Priority)->0 is Integer,
        settings.dataset is Uniform <==> entry(Key::Dataset)->0->Text_0.len() == 0,
        settings.dataset is Caida <==> entry(Key::Dataset)->0->Text_0 == seq![
            'c',
            'a',
            'i',
            'd',
            'a',
        ],
        casts_to_usize(entry(Key::CoreSend)->0->Integer_0, settings.core_send),
        casts_to_usize(entry(Key::CoreReceive)->0->Integer_0, settings.core_receive),
        casts_to_i32(entry(Key::Priority)->0->Integer_0, settings.priority),
{
    assert(problem(entry(Key::Dataset), Key::Dataset) is None);
    assert(problem(entry(Key::CoreSend), Key::CoreSend) is None);
    assert(problem(entry(Key::CoreReceive), Key::CoreReceive) is None);
    assert(problem(entry(Key::Priority), Key::Priority) is None);
    usize_cast_is_modular(entry(Key::CoreSend)->0->Integer_0);
    usize_cast_is_modular(entry(Key::CoreReceive)->0->Integer_0);
    i32_cast_is_modular(entry(Key::Priority)->0->Integer_0);
    let name = entry(Key::Dataset)->0->Text_0;
    reveal_strlit("");
    reveal_strlit("caida");
    assert("caida"@ =~= seq!['c', 'a', 'i', 'd', 'a']);
    if name.len() == 0 {
        assert(name =~= ""@);
    }
}

/// A table holds `value` under the two keys.
pub open spec fn holds(
    table: Map<(Seq<char>, Seq<char>), SettingView>,
    section: Seq<char>,
    name: Seq<char>,
    value: SettingView,
) -> bool {
    table.contains_key((section, name)) && table[(section, name)] == value
}

/// The settings are those that the table of tables holds under the names that they have there.
pub proof fn settings_are_what_table_holds(
    table: Map<(Seq<char>, Seq<char>), SettingView>,
    settings: Settings,
)
    requires
        interprets(|key: Key| lookup(table, key), Ok(settings)),
    ensures
        holds(table, "general"@, "rate"@, SettingView::Float(settings.rate_bits)),
        holds(table, "general"@, "time"@, SettingView::Float(settings.time_bits)),
        holds(table, "general"@, "save"@, SettingView::Boolean(settings.save)),
        holds(table, "general"@, "send"@, SettingView::Boolean(settings.send)),
        holds(table, "general"@, "receive"@, SettingView::Boolean(settings.receive)),
        holds(table, "general"@, "log"@, SettingView::Boolean(settings.log)),
        holds(table, "isolation"@, "isolate_send"@, SettingView::Boolean(settings.isolate_send)),
        holds(
            table,
            "isolation"@,
            "isolate_receive"@,
            SettingView::Boolean(settings.isolate_receive),
        ),
        holds(table, "ip"@, "src"@, SettingView::Text(dotted(settings.ip_src@))),
        holds(table, "ip"@, "dst"@, SettingView::Text(dotted(settings.ip_dst@))),
        holds(table, "interface"@, "input"@, SettingView::Text(settings.input@)),
        holds(table, "interface"@, "output"@, SettingView::Text(settings.output@)),
        exists|name: Seq<char>| #[trigger]
            holds(table, "general"@, "dataset"@, SettingView::Text(name)) && (
            settings.dataset is Uniform <==> name.len() == 0) && (settings.dataset is Caida
                <==> name == seq!['c', 'a', 'i', 'd', 'a']),
        exists|n: i64| #[trigger]
            holds(table, "isolation"@, "core_send"@, SettingView::Integer(n)) && casts_to_usize(
                n,
                settings.core_send,
            ),
        exists|n: i64| #[trigger]
            holds(table, "isolation"@, "core_receive"@, SettingView::Integer(n)) && casts_to_usize(
                n,
                settings.core_receive,
            ),
        exists|n: i64| #[trigger]
            holds(table, "isolation"@, "priority"@, SettingView::Integer(n)) && casts_to_i32(
                n,
                settings.priority,
            ),
{
    let entry = |key: Key| lookup(table, key);
    assert(forall|key: Key| #[trigger] entry(key) == lookup(table, key));
    lemma_settings_told(entry, settings);
    let name = entry(Key::Dataset)->0->Text_0;
    assert(holds(table, "general"@, "dataset"@, SettingView::Text(name)));
    let send = entry(Key::CoreSend)->0->Integer_0;
    assert(holds(table, "isolation"@, "core_send"@, SettingView::Integer(send)));
    let receive = entry(Key::CoreReceive)->0->Integer_0;
    assert(holds(table, "isolation"@, "core_receive"@, SettingView::Integer(receive)));
    let priority = entry(Key::Priority)->0->Integer_0;
    assert(holds(table, "isolation"@, "priority"@, SettingView::Integer(priority)));
}

/// The settings in the order in which they are read.
pub open spec fn reading_order() -> Seq<Key> {
    seq![
        Key::Rate,
        Key::Time,
        Key::Save,
        Key::Send,
        Key::Receive,
        Key::Log,
        Key::Dataset,
        Key::Src,
        Key::Dst,
        Key::IsolateSend,
        Key::CoreSend,
        Key::IsolateReceive,
        Key::CoreReceive,
        Key::Priority,
        Key::Input,
        Key::Output,
    ]
}

/// The settings whose value is of the same kind as `value`.
pub open spec fn takes(value: SettingView, key: Key) -> bool {
    match value {
        SettingView::Float(_) => key is Rate || key is Time,
        SettingView::Boolean(_) => key is Save || key is Send || key is Receive || key is Log
            || key is IsolateSend || key is IsolateReceive,
        SettingView::Integer(_) => key is CoreSend || key is CoreReceive || key is Priority,
        SettingView::Text(_) => key is Dataset || key is Src || key is Dst || key is Input
            || key is Output,
        SettingView::Other => false,
    }
}

/// `error` tells what is wrong with an entry: that it is not there, that its value is of another
/// kind, or that its text is to be an address and is none.
pub open spec fn tells(error: SettingsError, entry: Option<SettingView>) -> bool {
    match error {
        SettingsError::Missing(_) => entry is None,
        SettingsError::WrongType(key) => entry is Some && !takes(entry->0, key),
        SettingsError::NotAnAddress(key) => {
            &&& key is Src || key is Dst
            &&& entry is Some && entry->0 is Text
            &&& forall|addr: [u8; 4]| entry->0->Text_0 != #[trigger] dotted(addr@)
        },
    }
}

/// An entry with which nothing is wrong: it is there, its value is of the right kind, and where an
/// address is wanted, it spells one.
pub open spec fn in_order(entry: Option<SettingView>, key: Key) -> bool {
    &&& entry is Some && takes(entry->0, key)
    &&& key is Src || key is Dst ==> exists|addr: [u8; 4]|
        entry->0->Text_0 == #[trigger] dotted(addr@)
}

/// The setting that an error is about.
pub open spec fn about(error: SettingsError) -> Key {
    match error {
        SettingsError::Missing(key) => key,
        SettingsError::WrongType(key) => key,
        SettingsError::NotAnAddress(key) => key,
    }
}

/// An error tells what is wrong with the entry that it is about, and with all that are read
/// before it nothing is wrong. Where nothing is wrong with any, there is no error, and where there
/// is none, nothing is wrong.
pub proof fn first_wrong_entry_is_told(
    entry: spec_fn(Key) -> Option<SettingView>,
    read: Result<Settings, SettingsError>,
)
    requires
        interprets(entry, read),
    ensures
        match read {
            Ok(_) => forall|i: int|
                0 <= i < 16 ==> in_order(
                    entry(#[trigger] reading_order()[i]),
                    reading_order()[i],
                ),
            Err(error) => tells(error, entry(about(error))) && exists|i: int|
                0 <= i < 16 && #[trigger] reading_order()[i] == about(error) && forall|j: int|
                    0 <= j < i ==> in_order(
                        entry(#[trigger] reading_order()[j]),
                        reading_order()[j],
                    ),
        },
{
    match read {
        Ok(_) => {
            assert forall|i: int| 0 <= i < 16 implies in_order(
                entry(#[trigger] reading_order()[i]),
                reading_order()[i],
            ) by {
                lemma_problem_is_told(entry(reading_order()[i]), reading_order()[i]);
            }
        },
        Err(error) => {
            let key = choose|key: Key|
                problem(entry(key), key) == Some(error) && sound_below(
                    entry,
                    #[trigger] key.rank(),
                );
            lemma_problem_is_told(entry(key), key);
            lemma_order_is_by_rank(key.rank());
            assert(reading_order()[key.rank()] == key);
            assert forall|j: int| 0 <= j < key.rank() implies in_order(
                entry(#[trigger] reading_order()[j]),
                reading_order()[j],
            ) by {
                lemma_order_is_by_rank(j);
                lemma_problem_is_told(entry(reading_order()[j]), reading_order()[j]);
            }
        },
    }
}

proof fn lemma_problem_is_told(entry: Option<SettingView>, key: Key)
    ensures
        match problem(entry, key) {
            Some(error) => tells(error, entry) && about(error) == key,
            None => in_order(entry, key),
        },
{
}

proof fn lemma_order_is_by_rank(i: int)
    requires
        0 <= i < 16,
    ensures
        reading_order()[i].rank() == i,
        forall|key: Key| (#[trigger] key.rank()) == i ==> key == reading_order()[i],
{
}

/// Where a run is logged, there are three lines: one names the interface to send on, one the
/// interface to receive on, and the last says whether sending has a core of its own. Else there
/// is none.
pub proof fn log_names_the_interfaces(settings: Settings)
    ensures
        !settings.log ==> settings.log_text().len() == 0,
        settings.log ==> {
            let lines = settings.log_text();
            &&& lines.len() == 3
            &&& lines[0].subrange(37, lines[0].len() - 3) == settings.input@
            &&& lines[1].subrange(39, lines[1].len() - 3) == settings.output@
            &&& lines[2].len() == 28 + (if settings.isolate_send {
                4int
            } else {
                5
            })
            &&& lines[2][28] == (if settings.isolate_send {
                't'
            } else {
                'f'
            })
        },
{
    reveal_strlit("Sending Ethernet frames on interface ");
    reveal_strlit("Receiving Ethernet frames on interface ");
    reveal_strlit("Sending on specific cores = ");
    reveal_strlit("...");
    reveal_strlit("true");
    reveal_strlit("false");
    if settings.log {
        let lines = settings.log_text();
        assert(lines[0].subrange(37, lines[0].len() - 3) =~= settings.input@);
        assert(lines[1].subrange(39, lines[1].len() - 3) =~= settings.output@);
    }
}

} // verus!
