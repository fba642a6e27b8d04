use vstd::prelude::*;
use crate::sorted_map::ViewClone;

verus! {

broadcast use vstd::std_specs::vec::axiom_vec_index_decreases;

/// A YAML number, as `serde_yaml` keeps it. A float is held as the text serde_yaml's
/// `Number` displays it with (its shortest decimal form, or `.inf`, `-.inf`, `.nan`),
/// which `Number`'s `FromStr` reads back to the same value.
pub enum YamlNumber {
    PosInt(u64),
    NegInt(i64),
    Float(String),
}

/// A YAML value: what front matter, configuration and page attributes hold.
pub enum YamlValue {
    Null,
    Bool(bool),
    Number(YamlNumber),
    String(String),
    Sequence(Vec<YamlValue>),
    Mapping(Vec<(YamlValue, YamlValue)>),
    Tagged(String, Box<YamlValue>),
}

/// The mathematical form of a YAML value.
pub enum YamlModel {
    Null,
    Bool(bool),
    PosInt(u64),
    NegInt(i64),
    Float(Seq<char>),
    Str(Seq<char>),
    List(Seq<YamlModel>),
    Dict(Seq<(YamlModel, YamlModel)>),
    Tagged(Seq<char>, Box<YamlModel>),
}

pub open spec fn yaml_model(v: YamlValue) -> YamlModel
    decreases v,
{
    match v {
        YamlValue::Null => YamlModel::Null,
        YamlValue::Bool(b) => YamlModel::Bool(b),
        YamlValue::Number(n) => match n {
            YamlNumber::PosInt(u) => YamlModel::PosInt(u),
            YamlNumber::NegInt(i) => YamlModel::NegInt(i),
            YamlNumber::Float(s) => YamlModel::Float(s@),
        },
        YamlValue::String(s) => YamlModel::Str(s@),
        YamlValue::Sequence(items) => YamlModel::List(
            Seq::new(
                items@.len(),
                |i: int|
                    if 0 <= i < items@.len() {
                        yaml_model(items@[i])
                    } else {
                        YamlModel::Null
                    },
            ),
        ),
        YamlValue::Mapping(entries) => YamlModel::Dict(
            Seq::new(
                entries@.len(),
                |i: int|
                    if 0 <= i < entries@.len() {
                        (yaml_model(entries@[i].0), yaml_model(entries@[i].1))
                    } else {
                        (YamlModel::Null, YamlModel::Null)
                    },
            ),
        ),
        YamlValue::Tagged(t, b) => YamlModel::Tagged(t@, Box::new(yaml_model(*b))),
    }
}

impl View for YamlValue {
    type V = YamlModel;

    open spec fn view(&self) -> YamlModel {
        yaml_model(*self)
    }
}

/// The value with any tags around it removed.
pub open spec fn untag(m: YamlModel) -> YamlModel
    decreases m,
{
    match m {
        YamlModel::Tagged(_, b) => untag(*b),
        _ => m,
    }
}

/// A tag stands somewhere in the value, at any depth.
pub open spec fn has_tag(m: YamlModel) -> bool
    decreases m,
{
    match m {
        YamlModel::Tagged(_, _) => true,
        YamlModel::List(s) => exists|i: int| 0 <= i < s.len() && has_tag(#[trigger] s[i]),
        YamlModel::Dict(s) => exists|i: int|
            #![trigger s[i]]
            0 <= i < s.len() && (has_tag(s[i].0) || has_tag(s[i].1)),
        _ => false,
    }
}

/// `Value::as_i64`: an integer that fits in `i64`, looking through tags.
pub open spec fn model_as_i64(m: YamlModel) -> Option<i64> {
    match untag(m) {
        YamlModel::PosInt(u) => if u <= i64::MAX {
            Some(u as i64)
        } else {
            None
        },
        YamlModel::NegInt(i) => Some(i),
        _ => None,
    }
}

impl YamlValue {
    /// A copy of the value.
    #[verifier::loop_isolation(false)]
    pub fn clone_value(&self) -> (r: YamlValue)
        ensures
            r@ == self@,
        decreases self,
    {
        match self {
            YamlValue::Null => YamlValue::Null,
            YamlValue::Bool(b) => YamlValue::Bool(*b),
            YamlValue::Number(n) => YamlValue::Number(
                match n {
                    YamlNumber::PosInt(u) => YamlNumber::PosInt(*u),
                    YamlNumber::NegInt(i) => YamlNumber::NegInt(*i),
                    YamlNumber::Float(f) => YamlNumber::Float(f.clone()),
                },
            ),
            YamlValue::String(s) => YamlValue::String(s.clone()),
            YamlValue::Sequence(items) => {
                let mut out: Vec<YamlValue> = Vec::new();
                let mut i: usize = 0;
                while i < items.len()
                    invariant
                        i <= items@.len(),
                        out@.len() == i,
                        forall|j: int| 0 <= j < i ==> (#[trigger] out@[j])@ == items@[j]@,
                    decreases items.len() - i,
                {
                    out.push(items[i].clone_value());
                    i = i + 1;
                }
                let r = YamlValue::Sequence(out);
                proof {
                    let sa = Seq::new(
                        out@.len(),
                        |j: int|
                            if 0 <= j < out@.len() {
                                yaml_model(out@[j])
                            } else {
                                YamlModel::Null
                            },
                    );
                    let sb = Seq::new(
                        items@.len(),
                        |j: int|
                            if 0 <= j < items@.len() {
                                yaml_model(items@[j])
                            } else {
                                YamlModel::Null
                            },
                    );
                    assert(r@ is List && self@ is List);
                    assert(r@->List_0 =~= self@->List_0);
                }
                r
            },
            YamlValue::Mapping(entries) => {
                let mut out: Vec<(YamlValue, YamlValue)> = Vec::new();
                let mut i: usize = 0;
                while i < entries.len()
                    invariant
                        i <= entries@.len(),
                        out@.len() == i,
                        forall|j: int|
                            0 <= j < i ==> (#[trigger] out@[j]).0@ == entries@[j].0@ && out@[j].1@
                                == entries@[j].1@,
                    decreases entries.len() - i,
                {
                    let k = entries[i].0.clone_value();
                    let v = entries[i].1.clone_value();
                    out.push((k, v));
                    i = i + 1;
                }
                let r = YamlValue::Mapping(out);
                proof {
                    let sa = Seq::new(
                        out@.len(),
                        |j: int|
                            if 0 <= j < out@.len() {
                                (yaml_model(out@[j].0), yaml_model(out@[j].1))
                            } else {
                                (YamlModel::Null, YamlModel::Null)
                            },
                    );
                    let sb = Seq::new(
                        entries@.len(),
                        |j: int|
                            if 0 <= j < entries@.len() {
                                (yaml_model(entries@[j].0), yaml_model(entries@[j].1))
                            } else {
                                (YamlModel::Null, YamlModel::Null)
                            },
                    );
                    assert(r@ is Dict && self@ is Dict);
                    assert(r@->Dict_0 =~= self@->Dict_0);
                }
                r
            },
            YamlValue::Tagged(t, b) => YamlValue::Tagged(t.clone(), Box::new((**b).clone_value())),
        }
    }

    /// The value with any tags around it removed.
    pub fn untag_ref(&self) -> (r: &YamlValue)
        ensures
            r@ == untag(self@),
        decreases self,
    {
        match self {
            YamlValue::Tagged(_, b) => (**b).untag_ref(),
            _ => self,
        }
    }

    /// Whether a tag stands anywhere in the value.
    #[verifier::loop_isolation(false)]
    pub fn contains_tag(&self) -> (b: bool)
        ensures
            b == has_tag(self@),
        decreases self,
    {
        match self {
            YamlValue::Tagged(_, _) => true,
            YamlValue::Sequence(items) => {
                let mut i: usize = 0;
                while i < items.len()
                    invariant
                        i <= items@.len(),
                        forall|j: int| 0 <= j < i ==> !has_tag((#[trigger] items@[j])@),
                    decreases items.len() - i,
                {
                    if items[i].contains_tag() {
                        assert(self@ matches YamlModel::List(s) && s[i as int] == items@[i as int]@);
                        return true;
                    }
                    i = i + 1;
                }
                proof {
                    if let YamlModel::List(s) = self@ {
                        assert forall|j: int| 0 <= j < s.len() implies !has_tag(#[trigger] s[j]) by {
                            assert(s[j] == items@[j]@);
                        }
                    }
                }
                false
            },
            YamlValue::Mapping(entries) => {
                let mut i: usize = 0;
                while i < entries.len()
                    invariant
                        i <= entries@.len(),
                        forall|j: int|
                            0 <= j < i ==> !has_tag((#[trigger] entries@[j]).0@) && !has_tag(
                                entries@[j].1@,
                            ),
                    decreases entries.len() - i,
                {
                    let tk = entries[i].0.contains_tag();
                    let tv = entries[i].1.contains_tag();
                    if tk || tv {
                        proof {
                            if let YamlModel::Dict(s) = self@ {
                                assert(s[i as int] == (entries@[i as int].0@, entries@[i as int].1@));
                                assert(0 <= i < s.len());
                                assert(has_tag(s[i as int].0) || has_tag(s[i as int].1));
                                assert(has_tag(YamlModel::Dict(s)));
                            }
                        }
                        return true;
                    }
                    i = i + 1;
                }
                proof {
                    if let YamlModel::Dict(s) = self@ {
                        assert forall|j: int| 0 <= j < s.len() implies !(has_tag(
                            (#[trigger] s[j]).0,
                        ) || has_tag(s[j].1)) by {
                            assert(s[j] == (entries@[j].0@, entries@[j].1@));
                        }
                    }
                }
                false
            },
            _ => false,
        }
    }

    /// `Value::as_i64`.
    pub fn as_i64(&self) -> (r: Option<i64>)
        ensures
            r == model_as_i64(self@),
    {
        match self.untag_ref() {
            YamlValue::Number(YamlNumber::PosInt(u)) => {
                if *u <= 0x7fff_ffff_ffff_ffffu64 {
                    Some(*u as i64)
                } else {
                    None
                }
            },
            YamlValue::Number(YamlNumber::NegInt(i)) => Some(*i),
            _ => None,
        }
    }
}

impl ViewClone for YamlValue {
    fn clone_view(&self) -> (r: Self) {
        self.clone_value()
    }
}

/// serde_yaml's YAML value, held opaque.
#[verifier::external_type_specification]
#[verifier::external_body]
pub struct ExSerdeYamlValue(serde_yaml::Value);

/// serde_yaml's YAML number, held opaque.
#[verifier::external_type_specification]
#[verifier::external_body]
pub struct ExSerdeYamlNumber(serde_yaml::Number);

/// How serde_yaml reads a text as a YAML value, or the message it fails with.
pub uninterp spec fn spec_yaml_parse(s: Seq<char>) -> Result<YamlModel, Seq<char>>;

/// Trusted: reads a text with `serde_yaml::from_str` into a `serde_yaml::Value`, turned
/// into a `YamlValue` variant by variant; the outcome is named, not described.
#[verifier::external_body]
pub(crate) fn parse_yaml_text(s: &str) -> (r: Result<YamlValue, String>)
    ensures
        match r {
            Ok(v) => spec_yaml_parse(s@) == Ok::<YamlModel, Seq<char>>(v@),
            Err(e) => spec_yaml_parse(s@) == Err::<YamlModel, Seq<char>>(e@),
        },
{
    match serde_yaml::from_str::<serde_yaml::Value>(s) {
        Ok(v) => Ok(yaml_value_of(&v)),
        Err(e) => Err(e.to_string()),
    }
}

/// Trusted, used only by `parse_yaml_text`: a `serde_yaml::Value` as a `YamlValue`, the same
/// variant with the same contents.
#[verifier::external_body]
fn yaml_value_of(v: &serde_yaml::Value) -> YamlValue {
    match v {
        serde_yaml::Value::Null => YamlValue::Null,
        serde_yaml::Value::Bool(b) => YamlValue::Bool(*b),
        serde_yaml::Value::Number(n) => YamlValue::Number(yaml_number_of(n)),
        serde_yaml::Value::String(t) => YamlValue::String(t.clone()),
        serde_yaml::Value::Sequence(items) => YamlValue::Sequence(items.iter().map(yaml_value_of).collect()),
        serde_yaml::Value::Mapping(m) => YamlValue::Mapping(m.iter().map(|(k, x)| (yaml_value_of(k), yaml_value_of(x))).collect()),
        serde_yaml::Value::Tagged(t) => YamlValue::Tagged(t.tag.to_string(), Box::new(yaml_value_of(&t.value))),
    }
}

/// Trusted, used only by `yaml_value_of`: a `serde_yaml::Number` by the variant it holds,
/// an unsigned integer, a negative integer, or a float kept as its text.
#[verifier::external_body]
fn yaml_number_of(n: &serde_yaml::Number) -> YamlNumber {
    match (n.as_u64(), n.as_i64()) {
        (Some(u), _) => YamlNumber::PosInt(u),
        (None, Some(i)) => YamlNumber::NegInt(i),
        (None, None) => YamlNumber::Float(n.to_string()),
    }
}

} // verus!
