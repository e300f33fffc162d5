//! The settings table, and the values that settings take.
use vstd::prelude::*;
use vstd::utf8::*;
use crate::text::{
    i64_from_text, i64_text, is_float_text, parse_i64, is_float_literal, i64_bytes,
    string_from_utf8, str_eq, text_after, text_after_colon, lemma_i64_text_roundtrip,
    lemma_float_text_nonempty, u64_bytes, decimal_chars,
};

verus! {

broadcast use {encode_utf8_decode_utf8, encode_utf8_valid_utf8};

/// The type a setting declares for its value.
#[derive(Clone, Copy, Debug, PartialEq, Eq, Structural)]
pub enum SettingKind {
    Integer,
    Boolean,
    Float,
    Double,
    String,
    Enum,
    PackedBitfield,
}

impl Default for SettingKind {
    fn default() -> (r: Self)
        ensures
            r == SettingKind::String,
    {
        SettingKind::String
    }
}

/// The kind of a table entry that names none: string.
pub fn kind_or_default(kind: Option<SettingKind>) -> (r: SettingKind)
    ensures
        r == match kind {
            Some(k) => k,
            None => SettingKind::String,
        },
{
    match kind {
        Some(k) => k,
        None => SettingKind::default(),
    }
}

/// The name under which a kind is written in the settings table.
pub open spec fn kind_name(kind: SettingKind) -> Seq<char> {
    match kind {
        SettingKind::Integer => "integer"@,
        SettingKind::Boolean => "boolean"@,
        SettingKind::Float => "float"@,
        SettingKind::Double => "double"@,
        SettingKind::String => "string"@,
        SettingKind::Enum => "enum"@,
        SettingKind::PackedBitfield => "packed bitfield"@,
    }
}

impl SettingKind {
    pub fn to_str(&self) -> (r: &'static str)
        ensures
            r@ == kind_name(*self),
    {
        match self {
            SettingKind::Integer => "integer",
            SettingKind::Boolean => "boolean",
            SettingKind::Float => "float",
            SettingKind::Double => "double",
            SettingKind::String => "string",
            SettingKind::Enum => "enum",
            SettingKind::PackedBitfield => "packed bitfield",
        }
    }
}

/// The documentation entry of one setting.
#[derive(Debug, PartialEq)]
pub struct Setting {
    pub name: String,
    pub group: String,
    pub kind: SettingKind,
    pub expert: bool,
    pub readonly: bool,
    pub description: Option<String>,
    pub default_value: Option<String>,
    pub notes: Option<String>,
    pub units: Option<String>,
    pub enumerated_possible_values: Option<String>,
    pub digits: Option<String>,
}

/// A setting's entry, as text.
pub struct SettingView {
    pub name: Seq<char>,
    pub group: Seq<char>,
    pub kind: SettingKind,
    pub expert: bool,
    pub readonly: bool,
    pub description: Option<Seq<char>>,
    pub default_value: Option<Seq<char>>,
    pub notes: Option<Seq<char>>,
    pub units: Option<Seq<char>>,
    pub enumerated_possible_values: Option<Seq<char>>,
    pub digits: Option<Seq<char>>,
}

impl View for Setting {
    type V = SettingView;

    open spec fn view(&self) -> SettingView {
        SettingView {
            name: self.name@,
            group: self.group@,
            kind: self.kind,
            expert: self.expert,
            readonly: self.readonly,
            description: self.description.deep_view(),
            default_value: self.default_value.deep_view(),
            notes: self.notes.deep_view(),
            units: self.units.deep_view(),
            enumerated_possible_values: self.enumerated_possible_values.deep_view(),
            digits: self.digits.deep_view(),
        }
    }
}

fn clone_text(o: &Option<String>) -> (r: Option<String>)
    ensures
        r.deep_view() == o.deep_view(),
{
    match o {
        Some(s) => Some(s.clone()),
        None => None,
    }
}

impl Clone for Setting {
    fn clone(&self) -> (r: Self)
        ensures
            r@ == self@,
    {
        Setting {
            name: self.name.clone(),
            group: self.group.clone(),
            kind: self.kind,
            expert: self.expert,
            readonly: self.readonly,
            description: clone_text(&self.description),
            default_value: clone_text(&self.default_value),
            notes: clone_text(&self.notes),
            units: clone_text(&self.units),
            enumerated_possible_values: clone_text(&self.enumerated_possible_values),
            digits: clone_text(&self.digits),
        }
    }
}

/// The entry of a setting that the table does not document.
pub open spec fn undocumented(group: Seq<char>, name: Seq<char>) -> SettingView {
    SettingView {
        name,
        group,
        kind: SettingKind::String,
        expert: false,
        readonly: false,
        description: None,
        default_value: None,
        notes: None,
        units: None,
        enumerated_possible_values: None,
        digits: None,
    }
}

impl Default for Setting {
    fn default() -> (r: Self)
        ensures
            r@ == undocumented(Seq::empty(), Seq::empty()),
    {
        Setting {
            name: String::new(),
            group: String::new(),
            kind: SettingKind::String,
            expert: false,
            readonly: false,
            description: None,
            default_value: None,
            notes: None,
            units: None,
            enumerated_possible_values: None,
            digits: None,
        }
    }
}

/// The first entry of `table` for `group` and `name`.
pub open spec fn lookup(table: Seq<SettingView>, group: Seq<char>, name: Seq<char>) -> Option<
    SettingView,
>
    decreases table.len(),
{
    if table.len() == 0 {
        None
    } else if table[0].group == group && table[0].name == name {
        Some(table[0])
    } else {
        lookup(table.drop_first(), group, name)
    }
}

/// A lookup gives the first entry of the table for the group and name.
pub proof fn law_lookup_first(table: Seq<SettingView>, group: Seq<char>, name: Seq<char>, i: int)
    requires
        0 <= i < table.len(),
        table[i].group == group && table[i].name == name,
        forall|j: int| 0 <= j < i ==> !(#[trigger] table[j].group == group && table[j].name == name),
    ensures
        lookup(table, group, name) == Some(table[i]),
    decreases i,
{
    if i > 0 {
        let rest = table.drop_first();
        assert(!(table[0].group == group && table[0].name == name));
        assert forall|j: int| 0 <= j < i - 1 implies !(#[trigger] rest[j].group == group && rest[j].name
            == name) by {
            assert(rest[j] == table[j + 1]);
        }
        law_lookup_first(rest, group, name, i - 1);
    }
}

/// A lookup gives nothing where the table has no entry for the group and
/// name.
pub proof fn law_lookup_absent(table: Seq<SettingView>, group: Seq<char>, name: Seq<char>)
    requires
        forall|j: int| 0 <= j < table.len() ==> !(#[trigger] table[j].group == group && table[j].name == name),
    ensures
        lookup(table, group, name) is None,
    decreases table.len(),
{
    if table.len() > 0 {
        let rest = table.drop_first();
        assert(!(table[0].group == group && table[0].name == name));
        assert forall|j: int| 0 <= j < rest.len() implies !(#[trigger] rest[j].group == group
            && rest[j].name == name) by {
            assert(rest[j] == table[j + 1]);
        }
        law_lookup_absent(rest, group, name);
    }
}

/// The entry the table gives for `group` and `name`, or a bare one.
pub open spec fn entry_for(table: Seq<SettingView>, group: Seq<char>, name: Seq<char>) -> SettingView {
    match lookup(table, group, name) {
        Some(s) => s,
        None => undocumented(group, name),
    }
}

/// The entry for a setting that the device reported with a format type: an
/// enumeration takes its possible values from what follows the first colon.
pub open spec fn entry_with_format(
    table: Seq<SettingView>,
    group: Seq<char>,
    name: Seq<char>,
    fmt_type: Seq<char>,
) -> SettingView {
    let s = entry_for(table, group, name);
    if s.kind == SettingKind::Enum && text_after(fmt_type, ':') is Some {
        SettingView { enumerated_possible_values: text_after(fmt_type, ':'), ..s }
    } else {
        s
    }
}

pub open spec fn views(s: Seq<Setting>) -> Seq<SettingView> {
    s.map_values(|x: Setting| x@)
}

/// The settings table of a process. It starts out with the table bundled
/// with the library; the first `load` replaces it, unless the table has
/// already been fixed, which the first `load` or the first lookup does.
pub struct SettingRegistry {
    bundled: Vec<Setting>,
    loaded: Option<Vec<Setting>>,
}

impl SettingRegistry {
    /// Whether the table can no longer change.
    pub closed spec fn is_fixed(&self) -> bool {
        self.loaded is Some
    }

    /// The entries that a lookup searches.
    pub closed spec fn table(&self) -> Seq<SettingView> {
        match self.loaded {
            Some(v) => views(v@),
            None => views(self.bundled@),
        }
    }

    pub fn new(bundled: Vec<Setting>) -> (r: Self)
        ensures
            !r.is_fixed(),
            r.table() == views(bundled@),
    {
        SettingRegistry { bundled, loaded: None }
    }
}

/// Replaces the bundled table, unless the table is already fixed; then the
/// settings are handed back.
pub fn load(registry: &mut SettingRegistry, settings: Vec<Setting>) -> (r: Result<(), Vec<Setting>>)
    ensures
        !old(registry).is_fixed() ==> r is Ok && final(registry).table() == views(settings@),
        old(registry).is_fixed() ==> (r matches Err(v) && v@ == settings@) && final(registry).table()
            == old(registry).table(),
        final(registry).is_fixed(),
{
    if registry.loaded.is_some() {
        Err(settings)
    } else {
        registry.loaded = Some(settings);
        Ok(())
    }
}

impl Setting {
    /// All entries of the table, which is fixed from then on.
    pub fn all(registry: &mut SettingRegistry) -> (r: &[Setting])
        ensures
            final(registry).is_fixed(),
            final(registry).table() == old(registry).table(),
            views(r@) == old(registry).table(),
    {
        if registry.loaded.is_none() {
            let mut taken: Vec<Setting> = Vec::new();
            std::mem::swap(&mut taken, &mut registry.bundled);
            registry.loaded = Some(taken);
        }
        match &registry.loaded {
            Some(v) => v.as_slice(),
            None => &[],
        }
    }

    /// The first entry for `group` and `name`.
    #[verifier::loop_isolation(false)]
    pub fn find<'a>(registry: &'a mut SettingRegistry, group: &str, name: &str) -> (r: Option<
        &'a Setting,
    >)
        ensures
            final(registry).is_fixed(),
            final(registry).table() == old(registry).table(),
            match r {
                Some(s) => lookup(old(registry).table(), group@, name@) == Some(s@),
                None => lookup(old(registry).table(), group@, name@) is None,
            },
    {
        let all = Setting::all(registry);
        let ghost t = views(all@);
        let mut i: usize = 0;
        assert(t.skip(0) =~= t);
        while i < all.len()
            invariant
                t == views(all@),
                t == old(registry).table(),
                0 <= i <= all@.len(),
                lookup(t, group@, name@) == lookup(t.skip(i as int), group@, name@),
            decreases all@.len() - i,
        {
            let s = &all[i];
            assert(t.skip(i as int)[0] == s@);
            assert(t.skip(i as int).drop_first() =~= t.skip(i + 1));
            if str_eq(s.group.as_str(), group) && str_eq(s.name.as_str(), name) {
                return Some(s);
            }
            i = i + 1;
        }
        assert(t.skip(i as int).len() == 0);
        None
    }

    /// The entry for `group` and `name`, or a bare one of kind string if the
    /// table has none.
    pub fn new(registry: &mut SettingRegistry, group: &str, name: &str) -> (r: Setting)
        ensures
            final(registry).is_fixed(),
            final(registry).table() == old(registry).table(),
            r@ == entry_for(old(registry).table(), group@, name@),
    {
        match Setting::find(registry, group, name) {
            Some(s) => s.clone(),
            None => Setting {
                group: group.to_owned(),
                name: name.to_owned(),
                ..Default::default()
            },
        }
    }

    /// The entry for a setting reported with a format type.
    pub fn with_fmt_type(registry: &mut SettingRegistry, group: &str, name: &str, fmt_type: &str) -> (r:
        Setting)
        ensures
            final(registry).is_fixed(),
            final(registry).table() == old(registry).table(),
            r@ == entry_with_format(old(registry).table(), group@, name@, fmt_type@),
    {
        let mut setting = Setting::new(registry, group, name);
        if setting.kind == SettingKind::Enum {
            let possible_values = text_after_colon(fmt_type);
            if let Some(p) = possible_values {
                setting.enumerated_possible_values = Some(p);
            }
        }
        setting
    }
}

/// The value of a setting. A floating-point value is kept as the decimal
/// text the device sent, which `f32::from_str` accepts.
#[derive(Debug, PartialEq)]
pub enum SettingValue {
    Integer(i64),
    Boolean(bool),
    Float(String),
    String(String),
}

pub enum ValueView {
    Integer(i64),
    Boolean(bool),
    Float(Seq<char>),
    String(Seq<char>),
}

impl View for SettingValue {
    type V = ValueView;

    open spec fn view(&self) -> ValueView {
        match self {
            SettingValue::Integer(n) => ValueView::Integer(*n),
            SettingValue::Boolean(b) => ValueView::Boolean(*b),
            SettingValue::Float(t) => ValueView::Float(t@),
            SettingValue::String(t) => ValueView::String(t@),
        }
    }
}

impl Clone for SettingValue {
    fn clone(&self) -> (r: Self)
        ensures
            r@ == self@,
    {
        match self {
            SettingValue::Integer(n) => SettingValue::Integer(*n),
            SettingValue::Boolean(b) => SettingValue::Boolean(*b),
            SettingValue::Float(t) => SettingValue::Float(t.clone()),
            SettingValue::String(t) => SettingValue::String(t.clone()),
        }
    }
}

/// The value that the text `v` gives a setting of the given kind: nothing
/// for empty text; an integer as `i64::from_str` reads it; `True` or
/// `False` for a boolean; for a float or a double, text that
/// `f32::from_str` accepts; any text for the other kinds.
pub open spec fn parse_value(v: Seq<char>, kind: SettingKind) -> Option<ValueView> {
    let b = encode_utf8(v);
    if v.len() == 0 {
        None
    } else {
        match kind {
            SettingKind::Integer => match i64_from_text(b) {
                Some(n) => Some(ValueView::Integer(n)),
                None => None,
            },
            SettingKind::Boolean => if v == "True"@ {
                Some(ValueView::Boolean(true))
            } else if v == "False"@ {
                Some(ValueView::Boolean(false))
            } else {
                None
            },
            SettingKind::Float | SettingKind::Double => if is_float_text(b) {
                Some(ValueView::Float(v))
            } else {
                None
            },
            SettingKind::String | SettingKind::Enum | SettingKind::PackedBitfield => Some(
                ValueView::String(v),
            ),
        }
    }
}

/// How a value is written: booleans as `True` and `False`, as the
/// settings protocol writes them.
pub open spec fn value_text(v: ValueView) -> Seq<char> {
    match v {
        ValueView::Integer(n) => i64_text(n),
        ValueView::Boolean(b) => if b {
            "True"@
        } else {
            "False"@
        },
        ValueView::Float(t) => t,
        ValueView::String(t) => t,
    }
}

pub open spec fn option_value_view(o: Option<SettingValue>) -> Option<ValueView> {
    match o {
        Some(v) => Some(v@),
        None => None,
    }
}

impl SettingValue {
    pub fn parse(v: &str, kind: SettingKind) -> (r: Option<Self>)
        ensures
            option_value_view(r) == parse_value(v@, kind),
    {
        if v.is_empty() {
            return None;
        }
        match kind {
            SettingKind::Integer => match parse_i64(v.as_bytes()) {
                Some(n) => Some(SettingValue::Integer(n)),
                None => None,
            },
            SettingKind::Boolean => {
                if str_eq(v, "True") {
                    Some(SettingValue::Boolean(true))
                } else if str_eq(v, "False") {
                    Some(SettingValue::Boolean(false))
                } else {
                    None
                }
            },
            SettingKind::Float | SettingKind::Double => {
                if is_float_literal(v.as_bytes()) {
                    Some(SettingValue::Float(v.to_owned()))
                } else {
                    None
                }
            },
            SettingKind::String | SettingKind::Enum | SettingKind::PackedBitfield => {
                Some(SettingValue::String(v.to_owned()))
            },
        }
    }

    /// The value written as text.
    pub fn to_string(&self) -> (r: String)
        ensures
            r@ == value_text(self@),
    {
        match self {
            SettingValue::Integer(n) => {
                let bytes = i64_bytes(*n);
                match string_from_utf8(bytes) {
                    Some(s) => s,
                    None => String::new(),
                }
            },
            SettingValue::Boolean(b) => {
                if *b {
                    "True".to_owned()
                } else {
                    "False".to_owned()
                }
            },
            SettingValue::Float(t) => t.clone(),
            SettingValue::String(t) => t.clone(),
        }
    }
}

/// The kinds under which a value is read back from its text.
pub open spec fn reads_back_as(v: ValueView, kind: SettingKind) -> bool {
    match v {
        ValueView::Integer(_) => kind == SettingKind::Integer,
        ValueView::Boolean(_) => kind == SettingKind::Boolean,
        ValueView::Float(t) => (kind == SettingKind::Float || kind == SettingKind::Double)
            && is_float_text(encode_utf8(t)),
        ValueView::String(t) => (kind == SettingKind::String || kind == SettingKind::Enum || kind
            == SettingKind::PackedBitfield) && t.len() > 0,
    }
}

/// Reading back the text of a value under its kind gives the value:
/// integers and booleans always, floats and strings where their text is
/// one that a device could have sent.
pub proof fn law_value_text_roundtrip(v: ValueView, kind: SettingKind)
    requires
        reads_back_as(v, kind),
    ensures
        parse_value(value_text(v), kind) == Some(v),
{
    reveal_strlit("True");
    reveal_strlit("False");
    match v {
        ValueView::Integer(n) => {
            lemma_i64_text_roundtrip(n);
        },
        ValueView::Boolean(b) => {
            assert("True"@ != "False"@) by {
                assert("True"@[0] != "False"@[0]);
            }
        },
        ValueView::Float(t) => {
            lemma_float_text_nonempty(t);
        },
        ValueView::String(t) => {},
    }
}

/// What a flag of the settings table says: `True` or `true`, `False` or
/// `false`; other text is refused.
pub open spec fn flag_value(v: Seq<char>) -> Option<bool> {
    if v == "True"@ || v == "true"@ {
        Some(true)
    } else if v == "False"@ || v == "false"@ {
        Some(false)
    } else {
        None
    }
}

/// Reads a flag of the settings table.
pub fn parse_flag(v: &str) -> (r: Option<bool>)
    ensures
        r == flag_value(v@),
{
    if str_eq(v, "True") || str_eq(v, "true") {
        Some(true)
    } else if str_eq(v, "False") || str_eq(v, "false") {
        Some(false)
    } else {
        None
    }
}

/// What an optional text of the settings table says: `N/A` and the empty
/// text say there is none.
pub open spec fn optional_field(v: Seq<char>) -> Option<Seq<char>> {
    if v == "N/A"@ || v.len() == 0 {
        None
    } else {
        Some(v)
    }
}

/// An optional text of the table is absent exactly when it is `N/A` or
/// empty; any other text, however short, is kept as it is.
pub proof fn law_optional_field_kept(s: String)
    ensures
        optional_field(s@) is None <==> (s@ == "N/A"@ || s@.len() == 0),
        !(s@ == "N/A"@ || s@.len() == 0) ==> optional_field(s@) == Some(s@),
        !(s@ == "N/A"@ || s@.len() == 0) ==> scalar_field(TableScalar::Text(s)) == Some(s@),
        (s@ == "N/A"@ || s@.len() == 0) ==> scalar_field(TableScalar::Text(s)) is None,
{
}

/// A table entry found for a group and name is given unchanged, every
/// field included; where there is none, the entry is a bare string setting
/// of that group and name.
pub proof fn law_found_entry_unchanged(table: Seq<SettingView>, group: Seq<char>, name: Seq<char>, i: int)
    requires
        0 <= i < table.len(),
        table[i].group == group && table[i].name == name,
        forall|j: int| 0 <= j < i ==> !(#[trigger] table[j].group == group && table[j].name == name),
    ensures
        entry_for(table, group, name) == table[i],
        entry_for(table, group, name).readonly == table[i].readonly,
        entry_for(table, group, name).kind == table[i].kind,
        entry_for(table, group, name).units == table[i].units,
{
    law_lookup_first(table, group, name, i);
}

/// Where the table has no entry, the setting is a bare string setting
/// of that group and name.
pub proof fn law_missing_entry_bare(table: Seq<SettingView>, group: Seq<char>, name: Seq<char>)
    requires
        forall|j: int| 0 <= j < table.len() ==> !(#[trigger] table[j].group == group && table[j].name == name),
    ensures
        entry_for(table, group, name).group == group,
        entry_for(table, group, name).name == name,
        entry_for(table, group, name).kind == SettingKind::String,
        !entry_for(table, group, name).readonly,
{
    law_lookup_absent(table, group, name);
}

/// A float or double setting keeps every value `f32::from_str` accepts,
/// as the text it came in.
pub proof fn law_float_values_kept(v: Seq<char>)
    requires
        is_float_text(encode_utf8(v)),
    ensures
        parse_value(v, SettingKind::Float) == Some(ValueView::Float(v)),
        parse_value(v, SettingKind::Double) == Some(ValueView::Float(v)),
{
    lemma_float_text_nonempty(v);
}

/// Reads an optional text of the settings table.
pub fn parse_optional_field(v: &str) -> (r: Option<String>)
    ensures
        r.deep_view() == optional_field(v@),
{
    if str_eq(v, "N/A") || v.is_empty() {
        None
    } else {
        Some(v.to_owned())
    }
}

/// A scalar of the settings table's YAML where an optional text is
/// expected: text, an unsigned number, a flag or nothing.
pub enum TableScalar {
    Text(String),
    Unsigned(u64),
    Flag(bool),
    Null,
}

/// What such a scalar says: text as `optional_field` reads it, a number or
/// a flag as their `Display` writes them, and nothing for a null.
pub open spec fn scalar_field(x: TableScalar) -> Option<Seq<char>> {
    match x {
        TableScalar::Text(s) => optional_field(s@),
        TableScalar::Unsigned(n) => Some(decimal_chars(n as nat)),
        TableScalar::Flag(b) => Some(
            if b {
                "true"@
            } else {
                "false"@
            },
        ),
        TableScalar::Null => None,
    }
}

/// Reads an optional text of the settings table from a YAML scalar.
pub fn parse_optional_scalar(x: TableScalar) -> (r: Option<String>)
    ensures
        r.deep_view() == scalar_field(x),
{
    match x {
        TableScalar::Text(s) => parse_optional_field(s.as_str()),
        TableScalar::Unsigned(n) => string_from_utf8(u64_bytes(n)),
        TableScalar::Flag(b) => {
            if b {
                Some("true".to_owned())
            } else {
                Some("false".to_owned())
            }
        },
        TableScalar::Null => None,
    }
}

} // verus!
