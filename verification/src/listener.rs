//! The power-profile reactor: its configuration record, the decision taken
//! for each bus property value, and the handling of the display tool's
//! diagnostic output.

use vstd::prelude::*;
use vstd::string::StrSliceExecFns;
use crate::chars::{chars_of_str, string_of_chars, str_eq};
use crate::doc;

verus! {

// ---------------------------------------------------------------------------
// The configuration record
// ---------------------------------------------------------------------------

/// The stored configuration of the power-profile reactor: one display-mode
/// identifier per power profile. An empty identifier means the profile has
/// no configured mode.
pub struct Configs {
    pub power_saver_mode: String,
    pub balanced_mode: String,
    pub performance_mode: String,
}

/// The mathematical view of a configuration record.
pub struct ConfigsView {
    pub power_saver_mode: Seq<char>,
    pub balanced_mode: Seq<char>,
    pub performance_mode: Seq<char>,
}

impl View for Configs {
    type V = ConfigsView;

    open spec fn view(&self) -> ConfigsView {
        ConfigsView {
            power_saver_mode: self.power_saver_mode@,
            balanced_mode: self.balanced_mode@,
            performance_mode: self.performance_mode@,
        }
    }
}

/// The default record: every mode identifier empty.
pub open spec fn default_configs() -> ConfigsView {
    ConfigsView {
        power_saver_mode: Seq::<char>::empty(),
        balanced_mode: Seq::<char>::empty(),
        performance_mode: Seq::<char>::empty(),
    }
}

impl Default for Configs {
    fn default() -> (r: Self)
        ensures
            r@ == default_configs(),
    {
        let r = Configs {
            power_saver_mode: String::new(),
            balanced_mode: String::new(),
            performance_mode: String::new(),
        };
        proof {
            assert(r@ == default_configs());
        }
        r
    }
}

// ---------------------------------------------------------------------------
// The reactor's section of the configuration document
// ---------------------------------------------------------------------------

/// The key of this reactor's section in the shared document.
pub open spec fn configs_id() -> Seq<char> {
    "kde_power"@
}

/// The field keys of the record, in the order they are written.
pub open spec fn config_keys() -> Seq<Seq<char>> {
    seq!["power_saver_mode"@, "balanced_mode"@, "performance_mode"@]
}

/// The field values of a record, in the same order as the keys.
pub open spec fn config_values(c: ConfigsView) -> Seq<Seq<char>> {
    seq![c.power_saver_mode, c.balanced_mode, c.performance_mode]
}

/// The section key and the field keys are well formed: newline-free and
/// pairwise distinguishable, so one key's line never parses as another's.
pub proof fn lemma_config_keys_wf()
    ensures
        doc::keys_wf(config_keys()),
        doc::no_newline(configs_id()),
        config_keys().len() == 3,
{
    reveal_strlit("kde_power");
    reveal_strlit("power_saver_mode");
    reveal_strlit("balanced_mode");
    reveal_strlit("performance_mode");
    let k0 = "power_saver_mode"@;
    let k1 = "balanced_mode"@;
    let k2 = "performance_mode"@;
    assert(k0[0] == 'p' && k1[0] == 'b' && k2[0] == 'p');
    assert(k0[1] == 'o' && k2[1] == 'e');
    assert(doc::diff_at(k0, k1));
    assert(doc::diff_at(k1, k0));
    assert(doc::diff_at(k1, k2));
    assert(doc::diff_at(k2, k1));
    assert(doc::diff_at(k0, k2));
    assert(doc::diff_at(k2, k0));
    assert(doc::no_newline(k0));
    assert(doc::no_newline(k1));
    assert(doc::no_newline(k2));
    assert(doc::no_newline(configs_id()));
    assert forall|i: int, j: int|
        0 <= i < config_keys().len() && 0 <= j < config_keys().len() && i != j implies doc::diff_at(
        #[trigger] config_keys()[i],
        #[trigger] config_keys()[j],
    ) by {
    }
}

/// The section key, as characters.
pub fn configs_id_chars() -> (r: Vec<char>)
    ensures
        r@ == configs_id(),
{
    chars_of_str("kde_power")
}

/// The field keys, as characters.
pub fn config_keys_chars() -> (r: Vec<Vec<char>>)
    ensures
        r.deep_view() == config_keys(),
{
    let mut r: Vec<Vec<char>> = Vec::new();
    r.push(chars_of_str("power_saver_mode"));
    r.push(chars_of_str("balanced_mode"));
    r.push(chars_of_str("performance_mode"));
    proof {
        assert(r.deep_view().len() == 3);
        assert(r.deep_view()[0] == r@[0]@);
        assert(r.deep_view()[1] == r@[1]@);
        assert(r.deep_view()[2] == r@[2]@);
        assert(r.deep_view() =~~= config_keys());
    }
    r
}

/// The record loaded from a document text: `None` when the reactor's
/// section is absent, else the record read from it.
pub open spec fn loaded_configs(t: Seq<char>) -> Option<ConfigsView> {
    match doc::load_doc(t, configs_id(), config_keys()) {
        Some(vs) => Some(
            (ConfigsView {
                power_saver_mode: vs[0],
                balanced_mode: vs[1],
                performance_mode: vs[2],
            }),
        ),
        None => None,
    }
}

/// The document text written when a record is persisted over an existing
/// text.
pub open spec fn persisted(c: ConfigsView, t: Seq<char>) -> Seq<char> {
    doc::persist_doc(t, configs_id(), config_keys(), config_values(c))
}

/// The record a reactor starts from, given the config file's content (or
/// `None` when the file is missing): the stored record, or the default
/// when the file or the section cannot be read.
pub open spec fn starting_configs(t: Option<Seq<char>>) -> ConfigsView {
    match t {
        Some(tv) => match loaded_configs(tv) {
            Some(c) => c,
            None => default_configs(),
        },
        None => default_configs(),
    }
}

// ---------------------------------------------------------------------------
// The reaction decision
// ---------------------------------------------------------------------------

/// What the reactor decides to do for one property value.
pub enum ReactionPlan {
    /// Invoke the display tool with this (nonempty) mode identifier.
    SwitchMode(String),
    /// The profile is known but its configured mode is empty: invoke
    /// nothing, log a diagnostic.
    ModeUnset,
    /// The value is none of the three power profiles: invoke nothing, log
    /// a diagnostic.
    UnknownProfile,
}

/// The mathematical view of a reaction plan.
pub enum PlanView {
    SwitchMode(Seq<char>),
    ModeUnset,
    UnknownProfile,
}

impl View for ReactionPlan {
    type V = PlanView;

    open spec fn view(&self) -> PlanView {
        match self {
            ReactionPlan::SwitchMode(m) => PlanView::SwitchMode(m@),
            ReactionPlan::ModeUnset => PlanView::ModeUnset,
            ReactionPlan::UnknownProfile => PlanView::UnknownProfile,
        }
    }
}

impl DeepView for ReactionPlan {
    type V = PlanView;

    open spec fn deep_view(&self) -> PlanView {
        self.view()
    }
}

/// The mode identifier stored for a profile value, or `None` for a value
/// that is no power profile.
pub open spec fn mode_for_profile(c: ConfigsView, v: Seq<char>) -> Option<Seq<char>> {
    if v == "power-saver"@ {
        Some(c.power_saver_mode)
    } else if v == "performance"@ {
        Some(c.performance_mode)
    } else if v == "balanced"@ {
        Some(c.balanced_mode)
    } else {
        None
    }
}

/// The reaction decided for one property value under a configuration:
/// switch to the stored mode, unless the value is unknown or the stored
/// mode is empty.
pub open spec fn plan_for(c: ConfigsView, v: Seq<char>) -> PlanView {
    match mode_for_profile(c, v) {
        Some(m) => if m.len() == 0 {
            PlanView::ModeUnset
        } else {
            PlanView::SwitchMode(m)
        },
        None => PlanView::UnknownProfile,
    }
}

// ---------------------------------------------------------------------------
// The listener
// ---------------------------------------------------------------------------

/// The reactor watching the active power profile on the system bus.
pub struct PowerProfileListener {
    configs: Configs,
}

impl PowerProfileListener {
    /// The bus property the reactor watches.
    pub fn property_name() -> (r: &'static str)
        ensures
            r@ == "ActiveProfile"@,
    {
        "ActiveProfile"
    }

    /// The bus service that owns the property.
    pub fn destination() -> (r: &'static str)
        ensures
            r@ == "net.hadess.PowerProfiles"@,
    {
        "net.hadess.PowerProfiles"
    }

    /// The object path of the property.
    pub fn object_path() -> (r: &'static str)
        ensures
            r@ == "/net/hadess/PowerProfiles"@,
    {
        "/net/hadess/PowerProfiles"
    }

    /// The interface of the property.
    pub fn interface() -> (r: &'static str)
        ensures
            r@ == "net.hadess.PowerProfiles"@,
    {
        "net.hadess.PowerProfiles"
    }

    /// The key of this reactor's section in the shared document.
    pub fn configs_id_str() -> (r: &'static str)
        ensures
            r@ == configs_id(),
    {
        "kde_power"
    }

    /// Wrap a given configuration record.
    pub fn new_with_config(configs: Configs) -> (r: Self)
        ensures
            r.configs_view() == configs@,
    {
        PowerProfileListener { configs }
    }

    /// The current in-memory configuration.
    pub fn get_configs(&self) -> (r: &Configs)
        ensures
            r@ == self.configs_view(),
    {
        &self.configs
    }

    /// The view of the current configuration.
    pub closed spec fn configs_view(&self) -> ConfigsView {
        self.configs@
    }

    /// Interactive reconfiguration. This reactor has nothing to ask the
    /// operator, so the instance is returned unchanged.
    pub fn configure(self) -> (r: Self)
        ensures
            r == self,
    {
        self
    }

    /// Read this reactor's record from the config file's content (`None`
    /// when the file is missing or unreadable): `None` when no
    /// configuration is found, so that the caller falls back to defaults.
    pub fn read_configs(text: Option<&str>) -> (r: Option<Configs>)
        ensures
            match text {
                Some(t) => match r {
                    Some(c) => loaded_configs(t@) == Some(c@),
                    None => loaded_configs(t@) is None,
                },
                None => r is None,
            },
    {
        match text {
            None => None,
            Some(t) => {
                let id = configs_id_chars();
                let keys = config_keys_chars();
                match doc::load_section(t, &id, &keys) {
                    Some(vs) => {
                        proof {
                            assert(config_keys().len() == 3);
                            assert(vs.deep_view().len() == 3);
                            assert(vs@.len() == 3);
                            assert(vs.deep_view()[0] == vs@[0]@);
                            assert(vs.deep_view()[1] == vs@[1]@);
                            assert(vs.deep_view()[2] == vs@[2]@);
                        }
                        let c = Configs {
                            power_saver_mode: string_of_chars(&vs[0]),
                            balanced_mode: string_of_chars(&vs[1]),
                            performance_mode: string_of_chars(&vs[2]),
                        };
                        Some(c)
                    },
                    None => None,
                }
            },
        }
    }

    /// Construct the reactor from the config file's content: the stored
    /// record, or the default record when none is found.
    pub fn new(text: Option<&str>) -> (r: Self)
        ensures
            r.configs_view() == starting_configs(
                match text {
                    Some(t) => Some(t@),
                    None => None,
                },
            ),
    {
        match Self::read_configs(text) {
            Some(c) => Self::new_with_config(c),
            None => Self::new_with_config(Configs::default()),
        }
    }

    /// The document text to write back: this reactor's record replaces its
    /// own section of the existing text (`None` when the file is missing),
    /// every other line staying verbatim.
    pub fn persist(&self, existing: Option<&str>) -> (r: String)
        ensures
            r@ == persisted(
                self.configs_view(),
                match existing {
                    Some(t) => t@,
                    None => Seq::<char>::empty(),
                },
            ),
    {
        let t: &str = match existing {
            Some(t) => t,
            None => "",
        };
        proof {
            reveal_strlit("");
        }
        let id = configs_id_chars();
        let keys = config_keys_chars();
        let mut values: Vec<Vec<char>> = Vec::new();
        values.push(chars_of_str(self.configs.power_saver_mode.as_str()));
        values.push(chars_of_str(self.configs.balanced_mode.as_str()));
        values.push(chars_of_str(self.configs.performance_mode.as_str()));
        proof {
            assert(values.deep_view().len() == 3);
            assert(values.deep_view()[0] == values@[0]@);
            assert(values.deep_view()[1] == values@[1]@);
            assert(values.deep_view()[2] == values@[2]@);
            assert(values.deep_view() =~~= config_values(self.configs_view()));
            assert(keys@.len() == keys.deep_view().len());
            assert(keys@.len() == 3);
        }
        doc::persist_section(t, &id, &keys, &values)
    }

    /// Decide the reaction to one property change: the stored mode of the
    /// named profile, or a diagnostic outcome for an unknown profile or an
    /// unset mode.
    pub fn plan_reaction(&self, new_value: &str) -> (r: ReactionPlan)
        ensures
            r@ == plan_for(self.configs_view(), new_value@),
    {
        let mode: Option<&String> = if str_eq(new_value, "power-saver") {
            Some(&self.configs.power_saver_mode)
        } else if str_eq(new_value, "performance") {
            Some(&self.configs.performance_mode)
        } else if str_eq(new_value, "balanced") {
            Some(&self.configs.balanced_mode)
        } else {
            None
        };
        match mode {
            Some(m) => {
                if m.as_str().unicode_len() == 0 {
                    ReactionPlan::ModeUnset
                } else {
                    ReactionPlan::SwitchMode(m.clone())
                }
            },
            None => ReactionPlan::UnknownProfile,
        }
    }
}

// ---------------------------------------------------------------------------
// The display tool's output
// ---------------------------------------------------------------------------

/// The first `WxH@F` mode line captured from a text: `None` when no such
/// line occurs, else the width, height and refresh-rate digit runs.
pub uninterp spec fn mode_line_caps(s: Seq<char>) -> Option<(Seq<char>, Seq<char>, Seq<char>)>;

/// Relies on `regex::Regex::captures` with the fixed pattern
/// `(?P<w>\d+)x(?P<h>\d+)@(?P<f>\d+)`: whether and where the pattern first
/// matches depends on the text alone, and each captured group matches
/// `\d+`, so it holds at least one character.
#[verifier::external_body]
fn capture_mode_line(text: &str) -> (r: Option<(String, String, String)>)
    ensures
        match r {
            Some(c) => mode_line_caps(text@) == Some((c.0@, c.1@, c.2@)) && c.0@.len() >= 1
                && c.1@.len() >= 1 && c.2@.len() >= 1,
            None => mode_line_caps(text@) is None,
        },
{
    let re = regex::Regex::new(r"(?P<w>\d+)x(?P<h>\d+)@(?P<f>\d+)").unwrap();
    re.captures(text).map(
        |caps| (caps["w"].to_string(), caps["h"].to_string(), caps["f"].to_string()),
    )
}

/// A desktop notification the reaction asks to be shown.
pub struct Notification {
    pub app_name: String,
    pub icon: String,
    pub body: String,
}

/// The mathematical view of a notification.
pub struct NotificationView {
    pub app_name: Seq<char>,
    pub icon: Seq<char>,
    pub body: Seq<char>,
}

impl View for Notification {
    type V = NotificationView;

    open spec fn view(&self) -> NotificationView {
        NotificationView { app_name: self.app_name@, icon: self.icon@, body: self.body@ }
    }
}

/// The notification body announcing a profile change, formatted from the
/// captured width, height and refresh rate.
pub open spec fn notification_body(v: Seq<char>, w: Seq<char>, h: Seq<char>, f: Seq<char>) -> Seq<
    char,
> {
    "Profile Changed to "@ + v + ".\nResolution: "@ + w + "x"@ + h + "\nRefresh rate: "@ + f
        + "Hz"@
}

impl PowerProfileListener {
    /// Inspect the display tool's diagnostic output after a mode switch:
    /// when a `WxH@F` mode line occurs in it, the notification announcing
    /// the change; when none does, no notification — the caller logs a
    /// diagnostic and the watch loop goes on.
    pub fn handle_doctor_output(&self, new_value: &str, tool_output: &str) -> (r: Option<
        Notification,
    >)
        ensures
            match r {
                Some(n) => mode_line_caps(tool_output@) matches Some(c) && n@.app_name
                    == "dbus-reactor"@ && n@.icon == "battery-low"@ && n@.body
                    == notification_body(new_value@, c.0, c.1, c.2),
                None => mode_line_caps(tool_output@) is None,
            },
    {
        match capture_mode_line(tool_output) {
            Some((w, h, f)) => {
                let mut body = String::new();
                body.append("Profile Changed to ");
                body.append(new_value);
                body.append(".\nResolution: ");
                body.append(w.as_str());
                body.append("x");
                body.append(h.as_str());
                body.append("\nRefresh rate: ");
                body.append(f.as_str());
                body.append("Hz");
                proof {
                    assert(body@ =~= notification_body(new_value@, w@, h@, f@));
                }
                Some(
                    (Notification {
                        app_name: String::from_str("dbus-reactor"),
                        icon: String::from_str("battery-low"),
                        body,
                    }),
                )
            },
            None => None,
        }
    }
}

// ---------------------------------------------------------------------------
// The configuration laws
// ---------------------------------------------------------------------------

/// Round trip: persisting this reactor's record and then reading it back
/// from the written text yields exactly the record that was persisted,
/// whatever the document held before.
pub proof fn lemma_persist_then_read(c: ConfigsView, t: Seq<char>)
    ensures
        loaded_configs(persisted(c, t)) == Some(c),
{
    lemma_config_keys_wf();
    doc::lemma_persist_then_load(t, configs_id(), config_keys(), config_values(c));
    let vs = config_values(c);
    assert(loaded_configs(persisted(c, t)) == Some(
        (ConfigsView { power_saver_mode: vs[0], balanced_mode: vs[1], performance_mode: vs[2] }),
    ));
}

/// Non-interference: persisting this reactor's record leaves the body of
/// every other section of the document exactly as it was.
pub proof fn lemma_persist_preserves_other_sections(c: ConfigsView, t: Seq<char>, s: Seq<char>)
    requires
        s != configs_id(),
    ensures
        doc::section_body(doc::lines_of(persisted(c, t)), s) == doc::section_body(
            doc::lines_of(t),
            s,
        ),
{
    lemma_config_keys_wf();
    doc::lemma_persist_preserves_others(t, configs_id(), config_keys(), config_values(c), s);
}

/// Fallback: when the file is missing, or its text holds no section named
/// after this reactor, the reactor starts from the default record.
pub proof fn lemma_missing_section_defaults(t: Option<Seq<char>>)
    requires
        match t {
            Some(tv) => doc::section_body(doc::lines_of(tv), configs_id()) is None,
            None => true,
        },
    ensures
        starting_configs(t) == default_configs(),
{
}

/// An empty file holds no section at all.
pub proof fn lemma_empty_text_no_section(name: Seq<char>)
    ensures
        doc::section_body(doc::lines_of(Seq::<char>::empty()), name) is None,
{
    let ls = doc::lines_of(Seq::<char>::empty());
    assert(ls == seq![Seq::<char>::empty()]);
    assert(!doc::is_header(ls[0]));
    assert(ls.drop_first() =~~= Seq::<Seq<char>>::empty());
    assert(doc::section_body(ls.drop_first(), name) is None);
}

} // verus!
