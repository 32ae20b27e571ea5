//! A preset control of the dashboard: a choice between named options, each of which assigns
//! values to a number of session settings.

use crate::json;
use crate::json::{
    empty_object, get_element, get_member, member_mut, set_member, string_of, string_value, Json,
};
use crate::named_map;
use crate::named_map::NamedMap;
use crate::text::same_text;
use serde_json::Value;
use std::collections::HashSet;
use vstd::prelude::*;

verus! {

/// One step into a JSON value.
pub enum PathSegment {
    Name(String),
    Index(usize),
}

/// A value and the place it belongs to.
pub struct PathValuePair {
    pub path: Vec<PathSegment>,
    pub value: Value,
}

/// The contents of a [`PathSegment`].
pub enum Segment {
    Name(Seq<char>),
    Index(nat),
}

/// The contents of a [`PathValuePair`].
pub struct Assignment {
    pub path: Seq<Segment>,
    pub value: Json,
}

impl View for PathSegment {
    type V = Segment;

    open spec fn view(&self) -> Segment {
        match *self {
            PathSegment::Name(name) => Segment::Name(name@),
            PathSegment::Index(index) => Segment::Index(index as nat),
        }
    }
}

impl View for PathValuePair {
    type V = Assignment;

    open spec fn view(&self) -> Assignment {
        Assignment { path: segments(self.path@), value: json::json_of(self.value) }
    }
}

/// The contents of a path.
pub open spec fn segments(path: Seq<PathSegment>) -> Seq<Segment> {
    path.map_values(|segment: PathSegment| segment@)
}

/// The contents of a list of pairs.
pub open spec fn assignments(pairs: Seq<PathValuePair>) -> Seq<Assignment> {
    pairs.map_values(|pair: PathValuePair| pair@)
}

/// The value that a path leads to: each name leads to the member of an object, each index to the
/// element of an array.
pub open spec fn resolve(json: Json, path: Seq<Segment>) -> Option<Json>
    decreases path.len(),
{
    if path.len() == 0 {
        Some(json)
    } else {
        match path[0] {
            Segment::Name(name) => if json::members(json).contains_key(name) {
                resolve(json::members(json)[name], path.drop_first())
            } else {
                None
            },
            Segment::Index(index) => if index < json::elements(json).len() {
                resolve(json::elements(json)[index as int], path.drop_first())
            } else {
                None
            },
        }
    }
}

/// The value of the session settings that an assignment is about. Its path starts with a segment
/// for the settings as a whole.
pub open spec fn target(session: Json, assignment: Assignment) -> Option<Json> {
    resolve(session, assignment.path.drop_first())
}

/// A comparison of JSON values.
pub type JsonEq = spec_fn(Json, Json) -> bool;

/// The session settings hold what an assignment would give them.
pub open spec fn agrees(eq: JsonEq, session: Json, assignment: Assignment) -> bool {
    target(session, assignment) matches Some(found) && eq(found, assignment.value)
}

/// The session settings hold what each of the assignments would give them.
pub open spec fn all_agree(eq: JsonEq, session: Json, list: Seq<Assignment>) -> bool {
    forall|i: int| 0 <= i < list.len() ==> agrees(eq, session, #[trigger] list[i])
}

/// `values_eq` answers as `eq` does, on all values.
pub open spec fn decides<F: Fn(&Value, &Value) -> bool>(values_eq: F, eq: JsonEq) -> bool {
    forall|a: Value, b: Value, answer: bool|
        #[trigger] values_eq.ensures((&a, &b), answer) ==> answer == eq(
            json::json_of(a),
            json::json_of(b),
        )
}

/// The comparison can give that answer for a pair: its path leads to a value, and the comparison
/// of it with the value of the pair can have that outcome.
pub open spec fn can_answer<F: Fn(&Value, &Value) -> bool>(
    values_eq: F,
    session: Json,
    pair: PathValuePair,
    answer: bool,
) -> bool {
    exists|found: Value|
        {
            &&& resolve(session, segments(pair.path@).skip(1)) == Some(json::json_of(found))
            &&& #[trigger] values_eq.ensures((&found, &pair.value), answer)
        }
}

/// The value that `path` leads to from `json`, after the first segment of the path.
fn find_target<'a>(json: &'a Value, path: &Vec<PathSegment>) -> (found: Option<&'a Value>)
    requires
        path@.len() > 0,
    ensures
        found matches Some(f) ==> resolve(json::json_of(*json), segments(path@).drop_first())
            == Some(json::json_of(*f)),
        found is None ==> resolve(json::json_of(*json), segments(path@).drop_first()) is None,
{
    let ghost steps = segments(path@);
    let mut here = json;
    let mut i: usize = 1;
    assert(steps.skip(1) =~= steps.drop_first());
    while i < path.len()
        invariant
            1 <= i <= path@.len(),
            steps == segments(path@),
            resolve(json::json_of(*json), steps.drop_first()) == resolve(
                json::json_of(*here),
                steps.skip(i as int),
            ),
        decreases path@.len() - i,
    {
        assert(steps.skip(i as int)[0] == path@[i as int]@);
        assert(steps.skip(i as int).drop_first() =~= steps.skip(i + 1));
        let next = match &path[i] {
            PathSegment::Name(name) => get_member(here, name.as_str()),
            PathSegment::Index(index) => get_element(here, *index),
        };
        match next {
            Some(value) => {
                here = value;
            },
            None => {
                return None;
            },
        }
        i += 1;
    }
    Some(here)
}

/// What a modifier does to a setting.
pub enum PresetModifierOperation {
    /// Gives the setting a value.
    Assign(Value),
}

/// One change that an option makes.
pub struct PresetModifier {
    /// The setting, as a parsed path.
    pub target_path: Vec<PathSegment>,
    pub operation: PresetModifierOperation,
}

impl View for PresetModifier {
    type V = Assignment;

    open spec fn view(&self) -> Assignment {
        Assignment {
            path: segments(self.target_path@),
            value: match self.operation {
                PresetModifierOperation::Assign(value) => json::json_of(value),
            },
        }
    }
}

/// One option of the choice.
pub struct HigherOrderChoiceOption {
    pub display_name: String,
    pub modifiers: Vec<PresetModifier>,
}

impl HigherOrderChoiceOption {
    /// The assignments that the option stands for.
    pub open spec fn assignments(self) -> Seq<Assignment> {
        self.modifiers@.map_values(|modifier: PresetModifier| modifier@)
    }
}

/// `settings_schema::ChoiceControlType`.
#[verifier::external_type_specification]
#[verifier::external_body]
pub struct ExChoiceControlType(settings_schema::ChoiceControlType);

/// The description of a preset control.
pub struct HigherOrderChoiceSchema {
    pub name: String,
    pub strings: NamedMap<String>,
    pub flags: HashSet<String>,
    pub options: Vec<HigherOrderChoiceOption>,
    pub default_option_display_name: String,
    pub gui: settings_schema::ChoiceControlType,
}

impl HigherOrderChoiceSchema {
    /// The default is one of the options.
    pub open spec fn default_is_an_option(self) -> bool {
        exists|i: int|
            0 <= i < self.options@.len() && (#[trigger] self.options@[i]).display_name@
                == self.default_option_display_name@
    }

    /// Each path starts with a segment for the settings as a whole.
    pub open spec fn rooted(self) -> bool {
        forall|i: int, j: int|
            0 <= i < self.options@.len() && 0 <= j < self.options@[i].modifiers@.len() ==> (
            #[trigger] self.options@[i].modifiers@[j]).target_path@.len() > 0
    }
}

/// A named part of a settings schema.
pub struct SchemaEntry<T> {
    pub name: String,
    pub strings: NamedMap<String>,
    pub flags: HashSet<String>,
    pub content: T,
}

/// The part of a settings schema that a preset control is made of.
pub enum SchemaNode {
    Section { entries: Vec<SchemaEntry<SchemaNode>>, gui_collapsible: bool },
    Choice {
        default: String,
        variants: Vec<SchemaEntry<Option<SchemaNode>>>,
        gui: Option<settings_schema::ChoiceControlType>,
    },
}

/// Where a setting control stands among the others.
pub struct NestingInfo {
    pub path: Vec<PathSegment>,
    pub indentation_level: usize,
}

/// What the setting control inside a preset control is made from.
pub struct SettingControlInit {
    pub nesting_info: NestingInfo,
    pub schema: SchemaNode,
}

/// The names and texts of a map of strings.
pub open spec fn string_listing(strings: NamedMap<String>) -> Seq<(Seq<char>, Seq<char>)> {
    named_map::mapped(strings.listing(), |text: String| text@)
}

/// The options by name: an option that comes later takes the place of one of the same name.
pub open spec fn choices_of(options: Seq<HigherOrderChoiceOption>) -> Seq<
    (Seq<char>, Seq<Assignment>),
>
    decreases options.len(),
{
    if options.len() == 0 {
        Seq::empty()
    } else {
        named_map::upsert(
            choices_of(options.drop_last()),
            options.last().display_name@,
            options.last().assignments(),
        )
    }
}

/// The variant of the choice for the option `name`.
pub open spec fn is_variant(entry: SchemaEntry<Option<SchemaNode>>, name: Seq<char>) -> bool {
    &&& entry.name@ == name
    &&& string_listing(entry.strings) == seq![("display_name"@, name)]
    &&& entry.strings.distinct()
    &&& entry.flags@ == Set::<String>::empty()
    &&& entry.content is None
}

/// The choice between the options of `schema`.
pub open spec fn is_choice(node: SchemaNode, schema: HigherOrderChoiceSchema) -> bool {
    &&& node matches SchemaNode::Choice { default, variants, gui }
    &&& default@ == schema.default_option_display_name@
    &&& gui == Some(schema.gui)
    &&& variants@.len() == schema.options@.len()
    &&& forall|i: int|
        0 <= i < variants@.len() ==> is_variant(
            #[trigger] variants@[i],
            schema.options@[i].display_name@,
        )
}

/// A section that cannot be folded, with the choice as its one entry, which is displayed under
/// the name of the control.
pub open spec fn is_control_schema(node: SchemaNode, schema: HigherOrderChoiceSchema) -> bool {
    &&& node matches SchemaNode::Section { entries, gui_collapsible }
    &&& !gui_collapsible
    &&& entries@.len() == 1
    &&& entries@[0].name@ == schema.name@
    &&& string_listing(entries@[0].strings) == named_map::upsert(
        string_listing(schema.strings),
        "display_name"@,
        schema.name@,
    )
    &&& schema.strings.distinct() ==> entries@[0].strings.distinct()
    &&& entries@[0].flags == schema.flags
    &&& is_choice(entries@[0].content, schema)
}

/// A copy of a path.
fn clone_path(path: &Vec<PathSegment>) -> (copy: Vec<PathSegment>)
    ensures
        segments(copy@) == segments(path@),
{
    let mut copy: Vec<PathSegment> = Vec::new();
    let mut i: usize = 0;
    while i < path.len()
        invariant
            i <= path@.len(),
            copy@.len() == i,
            forall|k: int| 0 <= k < i ==> (#[trigger] copy@[k])@ == path@[k]@,
        decreases path@.len() - i,
    {
        let segment = match &path[i] {
            PathSegment::Name(name) => PathSegment::Name(name.clone()),
            PathSegment::Index(index) => PathSegment::Index(*index),
        };
        copy.push(segment);
        i += 1;
    }
    assert(segments(copy@) =~= segments(path@));
    copy
}

/// A copy of a list of pairs.
fn clone_pairs(pairs: &Vec<PathValuePair>) -> (copy: Vec<PathValuePair>)
    ensures
        assignments(copy@) == assignments(pairs@),
        copy@.len() == pairs@.len(),
        forall|k: int|
            0 <= k < copy@.len() ==> {
                &&& json::json_of((#[trigger] copy@[k]).value) == json::json_of(pairs@[k].value)
                &&& segments(copy@[k].path@) == segments(pairs@[k].path@)
            },
{
    let mut copy: Vec<PathValuePair> = Vec::new();
    let mut i: usize = 0;
    while i < pairs.len()
        invariant
            i <= pairs@.len(),
            copy@.len() == i,
            forall|k: int| 0 <= k < i ==> (#[trigger] copy@[k])@ == pairs@[k]@,
            forall|k: int|
                0 <= k < i ==> {
                    &&& json::json_of((#[trigger] copy@[k]).value) == json::json_of(pairs@[k].value)
                    &&& segments(copy@[k].path@) == segments(pairs@[k].path@)
                },
        decreases pairs@.len() - i,
    {
        copy.push(
            PathValuePair { path: clone_path(&pairs[i].path), value: pairs[i].value.clone() },
        );
        i += 1;
    }
    assert(assignments(copy@) =~= assignments(pairs@));
    copy
}

/// The assignments of an option, as pairs.
fn option_pairs(option: &HigherOrderChoiceOption) -> (pairs: Vec<PathValuePair>)
    ensures
        assignments(pairs@) == option.assignments(),
        pairs@.len() == option.modifiers@.len(),
        forall|k: int|
            0 <= k < pairs@.len() ==> {
                &&& segments((#[trigger] pairs@[k]).path@) == segments(
                    option.modifiers@[k].target_path@,
                )
                &&& match option.modifiers@[k].operation {
                    PresetModifierOperation::Assign(value) => json::json_of(pairs@[k].value)
                        == json::json_of(value),
                }
            },
{
    let mut pairs: Vec<PathValuePair> = Vec::new();
    let mut i: usize = 0;
    while i < option.modifiers.len()
        invariant
            i <= option.modifiers@.len(),
            pairs@.len() == i,
            forall|k: int| 0 <= k < i ==> (#[trigger] pairs@[k])@ == option.modifiers@[k]@,
            forall|k: int|
                0 <= k < i ==> {
                    &&& segments((#[trigger] pairs@[k]).path@) == segments(
                        option.modifiers@[k].target_path@,
                    )
                    &&& match option.modifiers@[k].operation {
                        PresetModifierOperation::Assign(value) => json::json_of(pairs@[k].value)
                            == json::json_of(value),
                    }
                },
        decreases option.modifiers@.len() - i,
    {
        let modifier = &option.modifiers[i];
        let value = match &modifier.operation {
            PresetModifierOperation::Assign(value) => value.clone(),
        };
        pairs.push(PathValuePair { path: clone_path(&modifier.target_path), value });
        i += 1;
    }
    assert(assignments(pairs@) =~= option.assignments());
    pairs
}

/// The options by name, as pairs.
fn collect_modifiers(options: &Vec<HigherOrderChoiceOption>) -> (modifiers: NamedMap<
    Vec<PathValuePair>,
>)
    ensures
        modifiers.distinct(),
        named_map::mapped(modifiers.listing(), |pairs: Vec<PathValuePair>| assignments(pairs@))
            == choices_of(options@),
{
    let ghost as_assignments = |pairs: Vec<PathValuePair>| assignments(pairs@);
    let mut modifiers: NamedMap<Vec<PathValuePair>> = NamedMap::new();
    let mut i: usize = 0;
    assert(named_map::mapped(modifiers.listing(), as_assignments) =~= choices_of(options@.take(0)));
    while i < options.len()
        invariant
            i <= options@.len(),
            modifiers.distinct(),
            as_assignments == (|pairs: Vec<PathValuePair>| assignments(pairs@)),
            named_map::mapped(modifiers.listing(), as_assignments) == choices_of(
                options@.take(i as int),
            ),
        decreases options@.len() - i,
    {
        let option = &options[i];
        let pairs = option_pairs(option);
        proof {
            named_map::lemma_upsert_mapped(
                modifiers.listing(),
                option.display_name@,
                pairs,
                as_assignments,
            );
            assert(options@.take(i + 1).drop_last() =~= options@.take(i as int));
        }
        modifiers.insert(option.display_name.clone(), pairs);
        i += 1;
    }
    assert(options@.take(i as int) =~= options@);
    modifiers
}

/// The map that displays `name`.
fn display_strings(mut strings: NamedMap<String>, name: &String) -> (result: NamedMap<String>)
    ensures
        string_listing(result) == named_map::upsert(
            string_listing(strings),
            "display_name"@,
            name@,
        ),
        strings.distinct() ==> result.distinct(),
{
    proof {
        named_map::lemma_upsert_mapped(
            strings.listing(),
            "display_name"@,
            *name,
            |text: String| text@,
        );
    }
    strings.insert("display_name".to_owned(), name.clone());
    strings
}

/// The variants of the choice, one for each option.
fn option_variants(options: &Vec<HigherOrderChoiceOption>) -> (variants: Vec<
    SchemaEntry<Option<SchemaNode>>,
>)
    ensures
        variants@.len() == options@.len(),
        forall|i: int|
            0 <= i < variants@.len() ==> is_variant(
                #[trigger] variants@[i],
                options@[i].display_name@,
            ),
{
    let mut variants: Vec<SchemaEntry<Option<SchemaNode>>> = Vec::new();
    let mut i: usize = 0;
    while i < options.len()
        invariant
            i <= options@.len(),
            variants@.len() == i,
            forall|k: int|
                0 <= k < i ==> is_variant(#[trigger] variants@[k], options@[k].display_name@),
        decreases options@.len() - i,
    {
        let name = &options[i].display_name;
        let none = NamedMap::new();
        assert(string_listing(none) =~= Seq::<(Seq<char>, Seq<char>)>::empty());
        let entry: SchemaEntry<Option<SchemaNode>> = SchemaEntry {
            name: name.clone(),
            strings: display_strings(none, name),
            flags: HashSet::new(),
            content: None,
        };
        variants.push(entry);
        i += 1;
    }
    variants
}

/// The place of the first option of that name.
fn find_option(options: &Vec<HigherOrderChoiceOption>, name: &str) -> (place: usize)
    requires
        exists|i: int| 0 <= i < options@.len() && (#[trigger] options@[i]).display_name@ == name@,
    ensures
        place < options@.len(),
        options@[place as int].display_name@ == name@,
{
    let mut i: usize = 0;
    while i < options.len()
        invariant
            i <= options@.len(),
            exists|k: int|
                i <= k < options@.len() && (#[trigger] options@[k]).display_name@ == name@,
        decreases options@.len() - i,
    {
        if same_text(options[i].display_name.as_str(), name) {
            return i;
        }
        i += 1;
    }
    0
}

/// The name of the first choice whose assignments satisfy `wanted`.
pub open spec fn first_where(
    choices: Seq<(Seq<char>, Seq<Assignment>)>,
    wanted: spec_fn(Seq<Assignment>) -> bool,
) -> Option<Seq<char>>
    decreases choices.len(),
{
    if choices.len() == 0 {
        None
    } else if wanted(choices[0].1) {
        Some(choices[0].0)
    } else {
        first_where(choices.drop_first(), wanted)
    }
}

/// There are assignments, and the session settings agree with all of them.
pub open spec fn exact_match(eq: JsonEq, session: Json) -> spec_fn(Seq<Assignment>) -> bool {
    |list: Seq<Assignment>| list.len() > 0 && all_agree(eq, session, list)
}

/// There are no assignments.
pub open spec fn no_assignments() -> spec_fn(Seq<Assignment>) -> bool {
    |list: Seq<Assignment>| list.len() == 0
}

/// The choice that the session settings stand for: the first one with assignments that all agree
/// with them. Where there is none, or it has no name, the first one without assignments; where
/// there is none of these either, no choice, which is the empty name.
pub open spec fn selected(
    eq: JsonEq,
    session: Json,
    choices: Seq<(Seq<char>, Seq<Assignment>)>,
) -> Seq<char> {
    match first_where(choices, exact_match(eq, session)) {
        Some(name) if name.len() > 0 => name,
        _ => match first_where(choices, no_assignments()) {
            Some(name) => name,
            None => Seq::empty(),
        },
    }
}

/// The assignments of a choice are those of an option of its name.
pub proof fn lemma_choice_is_an_option(
    options: Seq<HigherOrderChoiceOption>,
    choice: int,
) -> (option: int)
    requires
        0 <= choice < choices_of(options).len(),
    ensures
        0 <= option < options.len(),
        choices_of(options)[choice] == (
            options[option].display_name@,
            options[option].assignments(),
        ),
    decreases options.len(),
{
    let before = choices_of(options.drop_last());
    let last = options.last();
    let place = named_map::lemma_first_place(before, last.display_name@);
    named_map::lemma_upsert_at(before, last.display_name@, last.assignments(), place);
    if choice == place {
        options.len() - 1
    } else {
        lemma_choice_is_an_option(options.drop_last(), choice)
    }
}

/// The JSON of a preset control named `name` with `variant` selected.
pub open spec fn preset(name: Seq<char>, variant: Seq<char>) -> Json {
    Json::Object(
        map![name => Json::Object(map!["variant"@ => Json::String(variant)])],
    )
}

/// The JSON of a preset control with `variant` written into it as the selection.
pub open spec fn with_variant(json: Json, name: Seq<char>, variant: Seq<char>) -> Json {
    json::with_member(
        json,
        name,
        json::with_member(
            json::member_or_null(json, name),
            "variant"@,
            Json::String(variant),
        ),
    )
}

/// A preset control.
pub struct Control {
    pub name: String,
    pub modifiers: NamedMap<Vec<PathValuePair>>,
    pub control: SettingControlInit,
    pub preset_json: Value,
}

impl Control {
    /// The options by name, each with its assignments.
    pub open spec fn choices(self) -> Seq<(Seq<char>, Seq<Assignment>)> {
        named_map::mapped(self.modifiers.listing(), |pairs: Vec<PathValuePair>| assignments(pairs@))
    }

    /// The control that `schema` describes, with no option selected.
    pub fn new(schema: HigherOrderChoiceSchema) -> (control: Self)
        requires
            schema.default_is_an_option(),
        ensures
            control.name == schema.name,
            control.modifiers.distinct(),
            control.choices() == choices_of(schema.options@),
            control.control.nesting_info.path@.len() == 0,
            control.control.nesting_info.indentation_level == 0,
            is_control_schema(control.control.schema, schema),
            json::json_of(control.preset_json) == preset(schema.name@, Seq::empty()),
            control.writable(),
            schema.rooted() ==> control.rooted(),
    {
        let modifiers = collect_modifiers(&schema.options);
        let default = schema.options[find_option(
            &schema.options,
            schema.default_option_display_name.as_str(),
        )].display_name.clone();
        let choice = SchemaNode::Choice {
            default,
            variants: option_variants(&schema.options),
            gui: Some(schema.gui),
        };
        let entry = SchemaEntry {
            name: schema.name.clone(),
            strings: display_strings(schema.strings, &schema.name),
            flags: schema.flags,
            content: choice,
        };
        let mut entries: Vec<SchemaEntry<SchemaNode>> = Vec::new();
        entries.push(entry);
        let control = SettingControlInit {
            nesting_info: NestingInfo { path: Vec::new(), indentation_level: 0 },
            schema: SchemaNode::Section { entries, gui_collapsible: false },
        };
        let mut selection = empty_object();
        set_member(&mut selection, "variant", string_value(String::new()));
        let mut preset_json = empty_object();
        set_member(&mut preset_json, schema.name.as_str(), selection);
        let result = Self { name: schema.name, modifiers, control, preset_json };
        proof {
            if schema.rooted() {
                assert forall|i: int, j: int|
                    0 <= i < result.choices().len() && 0 <= j
                        < result.choices()[i].1.len() implies (
                #[trigger] result.choices()[i].1[j]).path.len() > 0 by {
                    let k = lemma_choice_is_an_option(schema.options@, i);
                    assert(schema.options@[k].modifiers@[j].target_path@.len() > 0);
                }
            }
        }
        result
    }

    /// Whether the session settings hold what each of the pairs would give them, as far as
    /// `values_eq` can tell. The first segment of each path is not looked at.
    pub fn matches_all<F: Fn(&Value, &Value) -> bool>(
        session: &Value,
        descs: &Vec<PathValuePair>,
        values_eq: &F,
    ) -> (r: bool)
        requires
            forall|i: int| 0 <= i < descs@.len() ==> (#[trigger] descs@[i]).path@.len() > 0,
            forall|a: Value, b: Value| #[trigger] values_eq.requires((&a, &b)),
        ensures
            forall|eq: JsonEq| #[trigger]
                decides(*values_eq, eq) ==> r == all_agree(
                    eq,
                    json::json_of(*session),
                    assignments(descs@),
                ),
            descs@.len() == 0 ==> r,
            (exists|i: int|
                0 <= i < descs@.len() && target(
                    json::json_of(*session),
                    #[trigger] assignments(descs@)[i],
                ) is None) ==> !r,
            r ==> forall|i: int|
                0 <= i < descs@.len() ==> can_answer(
                    *values_eq,
                    json::json_of(*session),
                    #[trigger] descs@[i],
                    true,
                ),
            !r ==> exists|i: int|
                0 <= i < descs@.len() && (resolve(
                    json::json_of(*session),
                    segments((#[trigger] descs@[i]).path@).skip(1),
                ) is None || can_answer(
                    *values_eq,
                    json::json_of(*session),
                    descs@[i],
                    false,
                )),
    {
        let ghost json = json::json_of(*session);
        let ghost list = assignments(descs@);
        let mut i: usize = 0;
        while i < descs.len()
            invariant
                i <= descs@.len(),
                json == json::json_of(*session),
                list == assignments(descs@),
                forall|k: int| 0 <= k < descs@.len() ==> (#[trigger] descs@[k]).path@.len() > 0,
                forall|a: Value, b: Value| #[trigger] values_eq.requires((&a, &b)),
                forall|k: int| 0 <= k < i ==> target(json, #[trigger] list[k]) is Some,
                forall|k: int|
                    0 <= k < i ==> can_answer(*values_eq, json, #[trigger] descs@[k], true),
                forall|eq: JsonEq, k: int| #[trigger]
                    decides(*values_eq, eq) && 0 <= k < i ==> agrees(eq, json, #[trigger] list[k]),
            decreases descs@.len() - i,
        {
            assert(list[i as int] == descs@[i as int]@);
            assert(segments(descs@[i as int].path@).drop_first() =~= segments(
                descs@[i as int].path@,
            ).skip(1));
            match find_target(session, &descs[i].path) {
                Some(found) => {
                    if !values_eq(found, &descs[i].value) {
                        return false;
                    }
                    assert(can_answer(*values_eq, json, descs@[i as int], true));
                },
                None => {
                    return false;
                },
            }
            i += 1;
        }
        true
    }

    /// The JSON of the control can take a selection.
    pub open spec fn writable(self) -> bool {
        &&& json::takes_members(json::json_of(self.preset_json))
        &&& json::takes_members(
            json::member_or_null(json::json_of(self.preset_json), self.name@),
        )
    }

    /// Each path starts with a segment for the settings as a whole.
    pub open spec fn rooted(self) -> bool {
        forall|i: int, j: int|
            0 <= i < self.choices().len() && 0 <= j < self.choices()[i].1.len() ==> (
            #[trigger] self.choices()[i].1[j]).path.len() > 0
    }

    /// The place of the first option with assignments that all agree with the session settings.
    fn matching_option<F: Fn(&Value, &Value) -> bool>(
        &self,
        session: &Value,
        values_eq: &F,
    ) -> (place: Option<usize>)
        requires
            self.rooted(),
            forall|a: Value, b: Value| #[trigger] values_eq.requires((&a, &b)),
        ensures
            place matches Some(p) ==> p < self.choices().len(),
            forall|eq: JsonEq| #[trigger]
                decides(*values_eq, eq) ==> first_where(
                    self.choices(),
                    exact_match(eq, json::json_of(*session)),
                ) == (match place {
                    Some(p) => Some(self.choices()[p as int].0),
                    None => None,
                }),
    {
        let ghost choices = self.choices();
        let ghost json = json::json_of(*session);
        let mut i: usize = 0;
        assert(choices.skip(0) =~= choices);
        while i < self.modifiers.entries.len()
            invariant
                i <= choices.len(),
                choices == self.choices(),
                json == json::json_of(*session),
                self.rooted(),
                forall|a: Value, b: Value| #[trigger] values_eq.requires((&a, &b)),
                forall|eq: JsonEq| #[trigger]
                    decides(*values_eq, eq) ==> first_where(choices, exact_match(eq, json))
                        == first_where(choices.skip(i as int), exact_match(eq, json)),
            decreases choices.len() - i,
        {
            let descs = &self.modifiers.entries[i].1;
            proof {
                assert(choices[i as int].1 == assignments(descs@));
                assert(choices.skip(i as int)[0] == choices[i as int]);
                assert(choices.skip(i as int).drop_first() =~= choices.skip(i + 1));
                assert forall|j: int| 0 <= j < descs@.len() implies (
                #[trigger] descs@[j]).path@.len() > 0 by {
                    assert(choices[i as int].1[j] == descs@[j]@);
                }
            }
            if descs.len() > 0 && Self::matches_all(session, descs, values_eq) {
                return Some(i);
            }
            i += 1;
        }
        None
    }

    /// The place of the first option without assignments.
    fn plain_option(&self) -> (place: Option<usize>)
        ensures
            place matches Some(p) ==> p < self.choices().len(),
            first_where(self.choices(), no_assignments()) == (match place {
                Some(p) => Some(self.choices()[p as int].0),
                None => None,
            }),
    {
        let ghost choices = self.choices();
        let mut i: usize = 0;
        assert(choices.skip(0) =~= choices);
        while i < self.modifiers.entries.len()
            invariant
                i <= choices.len(),
                choices == self.choices(),
                first_where(choices, no_assignments()) == first_where(
                    choices.skip(i as int),
                    no_assignments(),
                ),
            decreases choices.len() - i,
        {
            let descs = &self.modifiers.entries[i].1;
            proof {
                assert(choices[i as int].1 == assignments(descs@));
                assert(choices.skip(i as int)[0] == choices[i as int]);
                assert(choices.skip(i as int).drop_first() =~= choices.skip(i + 1));
            }
            if descs.len() == 0 {
                return Some(i);
            }
            i += 1;
        }
        None
    }

    /// Selects the option that the session settings stand for. `values_eq` compares a setting
    /// with the value that an option would give it.
    pub fn update_session_settings<F: Fn(&Value, &Value) -> bool>(
        &mut self,
        session_setting_json: &Value,
        values_eq: F,
    )
        requires
            old(self).writable(),
            old(self).rooted(),
            forall|a: Value, b: Value| #[trigger] values_eq.requires((&a, &b)),
        ensures
            final(self).name == old(self).name,
            final(self).modifiers == old(self).modifiers,
            final(self).control == old(self).control,
            final(self).writable(),
            exists|variant: Seq<char>|
                {
                    &&& json::json_of(final(self).preset_json) == #[trigger] with_variant(
                        json::json_of(old(self).preset_json),
                        old(self).name@,
                        variant,
                    )
                    &&& variant.len() == 0 || named_map::names(old(self).choices()).contains(
                        variant,
                    )
                    &&& forall|eq: JsonEq| #[trigger]
                        decides(values_eq, eq) ==> variant == selected(
                            eq,
                            json::json_of(*session_setting_json),
                            old(self).choices(),
                        )
                },
    {
        let ghost choices = self.choices();
        let ghost before = json::json_of(self.preset_json);
        let mut selected_option = String::new();
        let matching = self.matching_option(session_setting_json, &values_eq);
        if let Some(place) = matching {
            selected_option = self.modifiers.entries[place].0.clone();
            assert(named_map::names(choices)[place as int] == selected_option@);
        }
        if selected_option.as_str().is_empty() {
            if let Some(place) = self.plain_option() {
                selected_option = self.modifiers.entries[place].0.clone();
                assert(named_map::names(choices)[place as int] == selected_option@);
            }
        }
        let ghost variant = selected_option@;
        *member_mut(member_mut(&mut self.preset_json, self.name.as_str()), "variant") =
        string_value(selected_option);
        assert(json::json_of(self.preset_json) == with_variant(before, self.name@, variant));
    }

    /// The assignments to make when the inner control has been drawn and `request` is what it
    /// asked for: those of the option whose name was requested, and none without a request.
    pub fn ui(&self, request: Option<PathValuePair>) -> (changes: Vec<PathValuePair>)
        requires
            request matches Some(desc) ==> (json::json_of(desc.value) matches Json::String(name)
                && named_map::lookup(self.choices(), name) is Some),
        ensures
            request is None ==> changes@.len() == 0,
            request matches Some(desc) ==> (json::json_of(desc.value) matches Json::String(name)
                ==> named_map::lookup(self.choices(), name) == Some(assignments(changes@))),
            request matches Some(desc) ==> (json::json_of(desc.value) matches Json::String(name)
                ==> exists|i: int|
                {
                    &&& 0 <= i < self.modifiers.entries@.len()
                    &&& (#[trigger] self.modifiers.entries@[i]).0@ == name
                    &&& changes@.len() == self.modifiers.entries@[i].1@.len()
                    &&& forall|k: int|
                        0 <= k < changes@.len() ==> {
                            &&& json::json_of((#[trigger] changes@[k]).value) == json::json_of(
                                self.modifiers.entries@[i].1@[k].value,
                            )
                            &&& segments(changes@[k].path@) == segments(
                                self.modifiers.entries@[i].1@[k].path@,
                            )
                        }
                }),
    {
        match request {
            Some(desc) => {
                let name = string_of(&desc.value);
                match name {
                    Some(name) => {
                        proof {
                            named_map::lemma_lookup_mapped(
                                self.modifiers.listing(),
                                name@,
                                |pairs: Vec<PathValuePair>| assignments(pairs@),
                            );
                        }
                        match self.modifiers.get(name) {
                            Some(pairs) => {
                                let changes = clone_pairs(pairs);
                                proof {
                                    named_map::law_lookup_finds_the_first(
                                        self.modifiers.listing(),
                                        name@,
                                    );
                                    let i = choose|i: int|
                                        0 <= i < self.modifiers.listing().len()
                                            && #[trigger] self.modifiers.listing()[i] == (
                                            name@,
                                            *pairs,
                                        );
                                    assert(self.modifiers.entries@[i].0@ == name@);
                                }
                                changes
                            },
                            None => Vec::new(),
                        }
                    },
                    None => Vec::new(),
                }
            },
            None => Vec::new(),
        }
    }
}

/// What [`first_where`] finds is the name of a choice that is wanted and that no wanted one
/// precedes; it finds nothing only where no choice is wanted.
pub proof fn lemma_first_where(
    choices: Seq<(Seq<char>, Seq<Assignment>)>,
    wanted: spec_fn(Seq<Assignment>) -> bool,
)
    ensures
        match first_where(choices, wanted) {
            Some(name) => exists|i: int|
                0 <= i < choices.len() && (#[trigger] choices[i]).0 == name && wanted(choices[i].1)
                    && forall|k: int| 0 <= k < i ==> !wanted((#[trigger] choices[k]).1),
            None => forall|i: int| 0 <= i < choices.len() ==> !wanted((#[trigger] choices[i]).1),
        },
    decreases choices.len(),
{
    if choices.len() > 0 && !wanted(choices[0].1) {
        let rest = choices.drop_first();
        lemma_first_where(rest, wanted);
        assert(forall|k: int| 0 < k < choices.len() ==> #[trigger] choices[k] == rest[k - 1]);
        match first_where(rest, wanted) {
            Some(name) => {
                let i = choose|i: int|
                    0 <= i < rest.len() && (#[trigger] rest[i]).0 == name && wanted(rest[i].1)
                        && forall|k: int| 0 <= k < i ==> !wanted((#[trigger] rest[k]).1);
                assert(choices[i + 1].0 == name);
            },
            None => {},
        }
    }
}

/// A name that is selected is that of a choice: one with assignments that the session settings
/// all agree with, or one without assignments.
pub proof fn law_selection_is_justified(
    eq: JsonEq,
    session: Json,
    choices: Seq<(Seq<char>, Seq<Assignment>)>,
)
    ensures
        selected(eq, session, choices).len() > 0 ==> exists|i: int|
            0 <= i < choices.len() && (#[trigger] choices[i]).0 == selected(eq, session, choices)
                && all_agree(eq, session, choices[i].1),
{
    lemma_first_where(choices, exact_match(eq, session));
    lemma_first_where(choices, no_assignments());
    if selected(eq, session, choices).len() > 0 {
        match first_where(choices, exact_match(eq, session)) {
            Some(name) if name.len() > 0 => {},
            _ => {
                let name = first_where(choices, no_assignments())->0;
                let i = choose|i: int|
                    0 <= i < choices.len() && (#[trigger] choices[i]).0 == name
                        && no_assignments()(choices[i].1);
                assert(all_agree(eq, session, choices[i].1));
            },
        }
    }
}

/// An exact match comes before a choice without assignments: where each choice has a name, and
/// the session settings agree with all the assignments of a choice that has some, such a choice
/// is selected.
pub proof fn law_exact_match_comes_first(
    eq: JsonEq,
    session: Json,
    choices: Seq<(Seq<char>, Seq<Assignment>)>,
    matching: int,
)
    requires
        forall|i: int| 0 <= i < choices.len() ==> (#[trigger] choices[i]).0.len() > 0,
        0 <= matching < choices.len(),
        choices[matching].1.len() > 0,
        all_agree(eq, session, choices[matching].1),
    ensures
        exists|i: int|
            0 <= i <= matching && (#[trigger] choices[i]).0 == selected(eq, session, choices)
                && choices[i].1.len() > 0 && all_agree(eq, session, choices[i].1),
{
    let wanted = exact_match(eq, session);
    lemma_first_where(choices, wanted);
    assert(wanted(choices[matching].1));
    let name = first_where(choices, wanted)->0;
    let i = choose|i: int|
        0 <= i < choices.len() && (#[trigger] choices[i]).0 == name && wanted(choices[i].1)
            && forall|k: int| 0 <= k < i ==> !wanted((#[trigger] choices[k]).1);
    assert(i <= matching);
    assert(choices[i].0 == selected(eq, session, choices));
}

/// Where the session settings agree with no choice that has assignments, the first choice without
/// any is selected, and nothing where there is none.
pub proof fn law_fallback(
    eq: JsonEq,
    session: Json,
    choices: Seq<(Seq<char>, Seq<Assignment>)>,
)
    requires
        forall|i: int|
            0 <= i < choices.len() && (#[trigger] choices[i]).1.len() > 0 ==> !all_agree(
                eq,
                session,
                choices[i].1,
            ),
    ensures
        (exists|i: int|
            0 <= i < choices.len() && (#[trigger] choices[i]).1.len() == 0
                && choices[i].0 == selected(eq, session, choices)
                && forall|k: int| 0 <= k < i ==> (#[trigger] choices[k]).1.len() > 0)
            || (selected(eq, session, choices).len() == 0 && forall|i: int|
            0 <= i < choices.len() ==> (#[trigger] choices[i]).1.len() > 0),
{
    lemma_first_where(choices, exact_match(eq, session));
    lemma_first_where(choices, no_assignments());
    match first_where(choices, no_assignments()) {
        Some(name) => {
            let i = choose|i: int|
                0 <= i < choices.len() && (#[trigger] choices[i]).0 == name
                    && no_assignments()(choices[i].1) && forall|k: int|
                    0 <= k < i ==> !no_assignments()((#[trigger] choices[k]).1);
            assert(choices[i].1.len() == 0);
            assert forall|k: int| 0 <= k < i implies (#[trigger] choices[k]).1.len() > 0 by {
                assert(!no_assignments()(choices[k].1));
            }
        },
        None => {
            assert forall|k: int| 0 <= k < choices.len() implies (#[trigger] choices[k]).1.len()
                > 0 by {
                assert(!no_assignments()(choices[k].1));
            }
        },
    }
}

/// At most one choice is wanted.
pub open spec fn at_most_one(
    choices: Seq<(Seq<char>, Seq<Assignment>)>,
    wanted: spec_fn(Seq<Assignment>) -> bool,
) -> bool {
    forall|i: int, j: int|
        0 <= i < choices.len() && 0 <= j < choices.len() && wanted((#[trigger] choices[i]).1)
            && wanted((#[trigger] choices[j]).1) ==> choices[i].0 == choices[j].0
}

proof fn lemma_first_where_any_order(
    a: Seq<(Seq<char>, Seq<Assignment>)>,
    b: Seq<(Seq<char>, Seq<Assignment>)>,
    wanted: spec_fn(Seq<Assignment>) -> bool,
)
    requires
        forall|choice: (Seq<char>, Seq<Assignment>)| a.contains(choice) <==> b.contains(choice),
        at_most_one(a, wanted),
    ensures
        first_where(a, wanted) == first_where(b, wanted),
{
    lemma_first_where(a, wanted);
    lemma_first_where(b, wanted);
    if let Some(name) = first_where(a, wanted) {
        let i = choose|i: int|
            0 <= i < a.len() && (#[trigger] a[i]).0 == name && wanted(a[i].1);
        assert(a.contains(a[i]));
        let j = choose|j: int| 0 <= j < b.len() && b[j] == a[i];
        assert(wanted(b[j].1));
    }
    if let Some(name) = first_where(b, wanted) {
        let i = choose|i: int|
            0 <= i < b.len() && (#[trigger] b[i]).0 == name && wanted(b[i].1);
        assert(b.contains(b[i]));
        let j = choose|j: int| 0 <= j < a.len() && a[j] == b[i];
        assert(wanted(a[j].1));
    }
}

/// The order of the choices decides only between several that would do: where at most one has
/// assignments that all agree, and at most one has none, the same name is selected in any order.
pub proof fn law_order_of_choices(
    eq: JsonEq,
    session: Json,
    a: Seq<(Seq<char>, Seq<Assignment>)>,
    b: Seq<(Seq<char>, Seq<Assignment>)>,
)
    requires
        forall|choice: (Seq<char>, Seq<Assignment>)| a.contains(choice) <==> b.contains(choice),
        at_most_one(a, exact_match(eq, session)),
        at_most_one(a, no_assignments()),
    ensures
        selected(eq, session, a) == selected(eq, session, b),
{
    lemma_first_where_any_order(a, b, exact_match(eq, session));
    lemma_first_where_any_order(a, b, no_assignments());
}

/// A selection replaces the last one: only the selection that is written last can be told from
/// the JSON, whatever else the JSON holds.
pub proof fn law_selection_replaces_the_last(
    json: Json,
    name: Seq<char>,
    variant: Seq<char>,
    next: Seq<char>,
)
    ensures
        with_variant(with_variant(json, name, variant), name, next) == with_variant(
            json,
            name,
            next,
        ),
{
    let inner = json::members(json::member_or_null(json, name));
    assert(inner.insert("variant"@, Json::String(variant)).insert("variant"@, Json::String(next))
        =~= inner.insert("variant"@, Json::String(next)));
    let once = Json::Object(inner.insert("variant"@, Json::String(variant)));
    let twice = Json::Object(inner.insert("variant"@, Json::String(next)));
    assert(json::members(json).insert(name, once).insert(name, twice) =~= json::members(
        json,
    ).insert(name, twice));
}

/// A selection changes nothing but itself: the rest of the object under the name of the control,
/// and the rest of the JSON, stay.
pub proof fn law_selection_keeps_the_rest(
    json: Json,
    name: Seq<char>,
    variant: Seq<char>,
    other: Seq<char>,
)
    ensures
        other != name ==> json::member_or_null(with_variant(json, name, variant), other)
            == json::member_or_null(json, other),
        other != "variant"@ ==> json::member_or_null(
            json::member_or_null(with_variant(json, name, variant), name),
            other,
        ) == json::member_or_null(json::member_or_null(json, name), other),
        json::member_or_null(
            json::member_or_null(with_variant(json, name, variant), name),
            "variant"@,
        ) == Json::String(variant),
{
}

/// Writing a selection into the JSON of a fresh control, or of one that had a selection, gives
/// the JSON with that selection and nothing else.
pub proof fn law_fresh_control_takes_a_selection(
    name: Seq<char>,
    variant: Seq<char>,
    next: Seq<char>,
)
    ensures
        with_variant(preset(name, variant), name, next) == preset(name, next),
{
    let inner = map!["variant"@ => Json::String(variant)].insert("variant"@, Json::String(next));
    assert(inner =~= map!["variant"@ => Json::String(next)]);
    assert(map![name => Json::Object(map!["variant"@ => Json::String(variant)])].insert(
        name,
        Json::Object(inner),
    ) =~= map![name => Json::Object(inner)]);
}

/// Under the name of an option stand the assignments of the last option of that name.
pub proof fn law_options_by_name(options: Seq<HigherOrderChoiceOption>, last: int)
    requires
        0 <= last < options.len(),
        forall|i: int|
            last < i < options.len() ==> (#[trigger] options[i]).display_name@
                != options[last].display_name@,
    ensures
        named_map::lookup(choices_of(options), options[last].display_name@) == Some(
            options[last].assignments(),
        ),
    decreases options.len(),
{
    named_map::law_lookup_after_upsert(
        choices_of(options.drop_last()),
        options.last().display_name@,
        options.last().assignments(),
        options[last].display_name@,
    );
    if last < options.len() - 1 {
        assert(options.last() == options[options.len() - 1]);
        law_options_by_name(options.drop_last(), last);
    }
}

/// A name that no option has is not among the choices.
pub proof fn law_only_options_are_choices(options: Seq<HigherOrderChoiceOption>, name: Seq<char>)
    requires
        forall|i: int| 0 <= i < options.len() ==> (#[trigger] options[i]).display_name@ != name,
    ensures
        named_map::lookup(choices_of(options), name) is None,
    decreases options.len(),
{
    if options.len() > 0 {
        named_map::law_lookup_after_upsert(
            choices_of(options.drop_last()),
            options.last().display_name@,
            options.last().assignments(),
            name,
        );
        assert(options.last() == options[options.len() - 1]);
        law_only_options_are_choices(options.drop_last(), name);
    }
}

/// A path is followed segment by segment: one more name leads on to the member of that name of
/// what was reached, one more index to the element at that place, and where there is none, or
/// nothing was reached, nothing is.
pub proof fn law_paths_are_followed(json: Json, path: Seq<Segment>, name: Seq<char>, index: nat)
    ensures
        resolve(json, Seq::empty()) == Some(json),
        resolve(json, path.push(Segment::Name(name))) == (match resolve(json, path) {
            Some(Json::Object(fields)) if fields.contains_key(name) => Some(fields[name]),
            _ => None,
        }),
        resolve(json, path.push(Segment::Index(index))) == (match resolve(json, path) {
            Some(Json::Array(items)) if index < items.len() => Some(items[index as int]),
            _ => None,
        }),
    decreases path.len(),
{
    let by_name = path.push(Segment::Name(name));
    let by_index = path.push(Segment::Index(index));
    if path.len() == 0 {
        reveal_with_fuel(resolve, 2);
        assert(by_name.drop_first() =~= Seq::<Segment>::empty());
        assert(by_index.drop_first() =~= Seq::<Segment>::empty());
    } else {
        assert(by_name.drop_first() =~= path.drop_first().push(Segment::Name(name)));
        assert(by_index.drop_first() =~= path.drop_first().push(Segment::Index(index)));
        match path[0] {
            Segment::Name(first) => {
                if json::members(json).contains_key(first) {
                    law_paths_are_followed(
                        json::members(json)[first],
                        path.drop_first(),
                        name,
                        index,
                    );
                }
            },
            Segment::Index(first) => {
                if first < json::elements(json).len() {
                    law_paths_are_followed(
                        json::elements(json)[first as int],
                        path.drop_first(),
                        name,
                        index,
                    );
                }
            },
        }
    }
}

/// What an assignment is about is what its path leads to without the first segment, whatever that
/// is.
pub proof fn law_the_first_segment_is_skipped(
    session: Json,
    first: Segment,
    path: Seq<Segment>,
    value: Json,
)
    ensures
        target(session, Assignment { path: seq![first] + path, value }) == resolve(session, path),
{
    assert((seq![first] + path).drop_first() =~= path);
}

/// Paths and pairs are taken segment by segment and pair by pair.
pub proof fn law_pairs_one_by_one(pairs: Seq<PathValuePair>, i: int, k: int)
    requires
        0 <= i < pairs.len(),
        0 <= k < pairs[i].path@.len(),
    ensures
        assignments(pairs).len() == pairs.len(),
        assignments(pairs)[i].path.len() == pairs[i].path@.len(),
        assignments(pairs)[i].path[k] == (match pairs[i].path@[k] {
            PathSegment::Name(name) => Segment::Name(name@),
            PathSegment::Index(index) => Segment::Index(index as nat),
        }),
        assignments(pairs)[i].value == json::json_of(pairs[i].value),
        segments(pairs[i].path@) == assignments(pairs)[i].path,
{
}

/// An option assigns as much as it has modifiers: at each place the value of the modifier at that
/// place to the setting that the modifier is about.
pub proof fn law_each_modifier_assigns(option: HigherOrderChoiceOption, i: int)
    requires
        0 <= i < option.modifiers@.len(),
    ensures
        option.assignments().len() == option.modifiers@.len(),
        option.assignments()[i].path == segments(option.modifiers@[i].target_path@),
        option.modifiers@[i].operation matches PresetModifierOperation::Assign(value)
            && option.assignments()[i].value == json::json_of(value),
{
}

/// A request for an option is answered with an assignment for each of its modifiers, to the same
/// setting and of the same value, in the order of the modifiers. Where several options have the
/// name, the last one is meant.
pub proof fn law_a_request_makes_every_assignment(
    schema: HigherOrderChoiceSchema,
    control: Control,
    option: int,
    request: PathValuePair,
    changes: Vec<PathValuePair>,
)
    requires
        call_ensures(Control::new, (schema,), control),
        0 <= option < schema.options@.len(),
        forall|i: int|
            option < i < schema.options@.len() ==> (#[trigger] schema.options@[i]).display_name@
                != schema.options@[option].display_name@,
        json::json_of(request.value) == Json::String(schema.options@[option].display_name@),
        call_ensures(Control::ui, (&control, Some(request)), changes),
    ensures
        changes@.len() == schema.options@[option].modifiers@.len(),
        forall|k: int|
            0 <= k < changes@.len() ==> {
                let modifier = schema.options@[option].modifiers@[k];
                &&& segments((#[trigger] changes@[k]).path@) == segments(modifier.target_path@)
                &&& modifier.operation matches PresetModifierOperation::Assign(value)
                    && json::json_of(changes@[k].value) == json::json_of(value)
            },
{
    law_options_by_name(schema.options@, option);
    let chosen = schema.options@[option];
    assert(assignments(changes@) == chosen.assignments());
    assert(assignments(changes@).len() == changes@.len());
    assert forall|k: int| 0 <= k < changes@.len() implies {
        let modifier = chosen.modifiers@[k];
        &&& segments((#[trigger] changes@[k]).path@) == segments(modifier.target_path@)
        &&& modifier.operation matches PresetModifierOperation::Assign(value) && json::json_of(
            changes@[k].value,
        ) == json::json_of(value)
    } by {
        assert(assignments(changes@)[k] == changes@[k]@);
        law_each_modifier_assigns(chosen, k);
    }
}

/// All assignments agree where each of them does: the path of each leads to a value, and that is
/// equal to the assigned one.
pub proof fn law_every_assignment_has_to_agree(eq: JsonEq, session: Json, list: Seq<Assignment>)
    ensures
        all_agree(eq, session, list) <==> forall|i: int|
            0 <= i < list.len() ==> match resolve(session, (#[trigger] list[i]).path.skip(1)) {
                Some(found) => eq(found, list[i].value),
                None => false,
            },
{
    assert forall|i: int| 0 <= i < list.len() implies agrees(eq, session, #[trigger] list[i])
        == match resolve(session, list[i].path.skip(1)) {
        Some(found) => eq(found, list[i].value),
        None => false,
    } by {
        assert(list[i].path.skip(1) =~= list[i].path.drop_first());
    }
    if all_agree(eq, session, list) {
        assert forall|i: int| 0 <= i < list.len() implies match resolve(
            session,
            (#[trigger] list[i]).path.skip(1),
        ) {
            Some(found) => eq(found, list[i].value),
            None => false,
        } by {
            assert(agrees(eq, session, list[i]));
        }
    }
}

/// One assignment that differs is enough, at whatever place it stands: where its path leads to a
/// value that the comparison tells apart from the assigned one, the answer is no. So it is where
/// its path leads nowhere. Where neither is the case anywhere, the answer is yes.
pub proof fn law_one_difference_is_enough<F: Fn(&Value, &Value) -> bool>(
    session: Value,
    descs: Vec<PathValuePair>,
    values_eq: F,
    answer: bool,
    place: int,
)
    requires
        call_ensures(Control::matches_all::<F>, (&session, &descs, &values_eq), answer),
        0 <= place < descs@.len(),
    ensures
        resolve(json::json_of(session), segments(descs@[place].path@).skip(1)) is None ==> !answer,
        (forall|found: Value|
            resolve(json::json_of(session), segments(descs@[place].path@).skip(1)) == Some(
                json::json_of(found),
            ) ==> !#[trigger] values_eq.ensures((&found, &descs@[place].value), true)) ==> !answer,
        (forall|i: int|
            0 <= i < descs@.len() ==> resolve(
                json::json_of(session),
                segments((#[trigger] descs@[i]).path@).skip(1),
            ) is Some && forall|found: Value|
                resolve(json::json_of(session), segments(descs@[i].path@).skip(1)) == Some(
                    json::json_of(found),
                ) ==> !#[trigger] values_eq.ensures((&found, &descs@[i].value), false)) ==> answer,
{
    if answer {
        assert(can_answer(values_eq, json::json_of(session), descs@[place], true));
    }
}

/// With a comparison that answers by what the values hold, the answer is yes exactly where each
/// path leads to a value that is equal to the one of its pair.
pub proof fn law_a_match_holds_for_every_pair<F: Fn(&Value, &Value) -> bool>(
    session: Value,
    descs: Vec<PathValuePair>,
    values_eq: F,
    eq: JsonEq,
    answer: bool,
)
    requires
        call_ensures(Control::matches_all::<F>, (&session, &descs, &values_eq), answer),
        forall|a: Value, b: Value, same: bool| #[trigger]
            values_eq.ensures((&a, &b), same) ==> same == eq(json::json_of(a), json::json_of(b)),
    ensures
        answer <==> forall|i: int|
            0 <= i < descs@.len() ==> match resolve(
                json::json_of(session),
                segments((#[trigger] descs@[i]).path@).skip(1),
            ) {
                Some(found) => eq(found, json::json_of(descs@[i].value)),
                None => false,
            },
{
    if answer {
        assert forall|i: int| 0 <= i < descs@.len() implies match resolve(
            json::json_of(session),
            segments((#[trigger] descs@[i]).path@).skip(1),
        ) {
            Some(found) => eq(found, json::json_of(descs@[i].value)),
            None => false,
        } by {
            assert(can_answer(values_eq, json::json_of(session), descs@[i], true));
        }
    }
}

/// A comparison decides as another one does where each answer that it can give is that of the
/// other one for what the values hold.
pub proof fn law_what_a_comparison_decides<F: Fn(&Value, &Value) -> bool>(values_eq: F, eq: JsonEq)
    ensures
        decides(values_eq, eq) <==> forall|a: Value, b: Value, answer: bool|
            #[trigger] values_eq.ensures((&a, &b), answer) ==> answer == eq(
                json::json_of(a),
                json::json_of(b),
            ),
{
}

/// The first choice that has assignments which all agree is selected where it has a name. Where it
/// has none, the first choice without assignments is, and nothing where there is no such choice.
pub proof fn law_the_first_match_is_selected(
    eq: JsonEq,
    session: Json,
    choices: Seq<(Seq<char>, Seq<Assignment>)>,
    first: int,
)
    requires
        0 <= first < choices.len(),
        choices[first].1.len() > 0,
        all_agree(eq, session, choices[first].1),
        forall|k: int|
            0 <= k < first ==> (#[trigger] choices[k]).1.len() == 0 || !all_agree(
                eq,
                session,
                choices[k].1,
            ),
    ensures
        choices[first].0.len() > 0 ==> selected(eq, session, choices) == choices[first].0,
        choices[first].0.len() == 0 ==> {
            &&& forall|j: int|
                0 <= j < choices.len() && (#[trigger] choices[j]).1.len() == 0 && (forall|k: int|
                    0 <= k < j ==> (#[trigger] choices[k]).1.len() > 0) ==> selected(
                    eq,
                    session,
                    choices,
                ) == choices[j].0
            &&& (forall|j: int| 0 <= j < choices.len() ==> (#[trigger] choices[j]).1.len() > 0)
                ==> selected(eq, session, choices).len() == 0
        },
{
    let wanted = exact_match(eq, session);
    let plain = no_assignments();
    lemma_first_where(choices, wanted);
    lemma_first_where(choices, plain);
    assert(wanted(choices[first].1));
    let name = first_where(choices, wanted)->0;
    let i = choose|i: int|
        0 <= i < choices.len() && (#[trigger] choices[i]).0 == name && wanted(choices[i].1)
            && forall|k: int| 0 <= k < i ==> !wanted((#[trigger] choices[k]).1);
    assert(i == first) by {
        if i < first {
            assert(choices[i].1.len() == 0 || !all_agree(eq, session, choices[i].1));
        }
    }
    match first_where(choices, plain) {
        Some(name) => {
            let i = choose|i: int|
                0 <= i < choices.len() && (#[trigger] choices[i]).0 == name && plain(choices[i].1)
                    && forall|k: int| 0 <= k < i ==> !plain((#[trigger] choices[k]).1);
            assert(choices[i].1.len() == 0);
            assert forall|j: int|
                0 <= j < choices.len() && (#[trigger] choices[j]).1.len() == 0 && (forall|k: int|
                    0 <= k < j ==> (#[trigger] choices[k]).1.len() > 0) implies i == j by {
                if i < j {
                    assert(choices[i].1.len() > 0);
                }
                if j < i {
                    assert(!plain(choices[j].1));
                }
            }
        },
        None => {
            assert forall|j: int| 0 <= j < choices.len() implies (#[trigger] choices[j]).1.len()
                > 0 by {
                assert(!plain(choices[j].1));
            }
        },
    }
}

/// The choices of a control are its entries, each with the assignments of its pairs.
pub proof fn law_choices_are_the_entries(control: Control, i: int)
    requires
        0 <= i < control.modifiers.entries@.len(),
    ensures
        control.choices().len() == control.modifiers.entries@.len(),
        control.choices()[i].0 == control.modifiers.entries@[i].0@,
        control.choices()[i].1 == assignments(control.modifiers.entries@[i].1@),
{
}

/// An option with a new name adds a choice at the end; one with a name that is there already takes
/// the place of that choice and leaves the others.
pub proof fn law_choices_keep_their_order(
    options: Seq<HigherOrderChoiceOption>,
    option: HigherOrderChoiceOption,
    i: int,
)
    requires
        0 <= i < choices_of(options).len(),
    ensures
        choices_of(Seq::<HigherOrderChoiceOption>::empty()).len() == 0,
        choices_of(options)[i].0 != option.display_name@ ==> choices_of(options.push(option))[i]
            == choices_of(options)[i],
        (forall|k: int|
            0 <= k < choices_of(options).len() ==> (#[trigger] choices_of(options)[k]).0
                != option.display_name@) ==> choices_of(options.push(option)) == choices_of(
            options,
        ).push((option.display_name@, option.assignments())),
        choices_of(options)[i].0 == option.display_name@ && (forall|k: int|
            0 <= k < i ==> (#[trigger] choices_of(options)[k]).0 != option.display_name@)
            ==> choices_of(options.push(option)).len() == choices_of(options).len() && choices_of(
            options.push(option),
        )[i] == (option.display_name@, option.assignments()),
{
    assert(options.push(option).drop_last() =~= options);
    named_map::law_upsert_touches_one_entry(
        choices_of(options),
        option.display_name@,
        option.assignments(),
        i,
    );
}

/// The strings of a schema entry are listed one by one.
pub proof fn law_strings_one_by_one(strings: NamedMap<String>, i: int)
    requires
        0 <= i < strings.entries@.len(),
    ensures
        string_listing(strings).len() == strings.entries@.len(),
        string_listing(strings)[i] == (strings.entries@[i].0@, strings.entries@[i].1@),
{
}

/// The inner control of a preset control is one choice, in a section that cannot be folded, with
/// a variant for each option, in the order of the options, that shows the name of the option and
/// has nothing of its own. The default is that of the schema. The choice has the flags, the
/// strings and the name of the schema, and is shown under that name.
pub proof fn law_the_inner_control_shows_every_option(
    schema: HigherOrderChoiceSchema,
    control: Control,
)
    requires
        call_ensures(Control::new, (schema,), control),
    ensures
        control.name@ == schema.name@,
        control.control.nesting_info.path@.len() == 0,
        control.control.nesting_info.indentation_level == 0,
        control.control.schema matches SchemaNode::Section { entries, gui_collapsible } && {
            &&& !gui_collapsible
            &&& entries@.len() == 1
            &&& entries@[0].name@ == schema.name@
            &&& entries@[0].flags == schema.flags
            &&& named_map::lookup(string_listing(entries@[0].strings), "display_name"@) == Some(
                schema.name@,
            )
            &&& forall|key: Seq<char>|
                key != "display_name"@ ==> #[trigger] named_map::lookup(
                    string_listing(entries@[0].strings),
                    key,
                ) == named_map::lookup(string_listing(schema.strings), key)
            &&& entries@[0].content matches SchemaNode::Choice { default, variants, gui } && {
                &&& default@ == schema.default_option_display_name@
                &&& gui == Some(schema.gui)
                &&& variants@.len() == schema.options@.len()
                &&& forall|i: int|
                    0 <= i < variants@.len() ==> {
                        &&& (#[trigger] variants@[i]).name@ == schema.options@[i].display_name@
                        &&& variants@[i].strings.entries@.len() == 1
                        &&& variants@[i].strings.entries@[0].0@ == "display_name"@
                        &&& variants@[i].strings.entries@[0].1@
                            == schema.options@[i].display_name@
                        &&& variants@[i].flags@ == Set::<String>::empty()
                        &&& variants@[i].content is None
                    }
            }
        },
{
    if let SchemaNode::Section { entries, gui_collapsible } = control.control.schema {
        assert forall|key: Seq<char>| true implies #[trigger] named_map::lookup(
            string_listing(entries@[0].strings),
            key,
        ) == (if key == "display_name"@ {
            Some(schema.name@)
        } else {
            named_map::lookup(string_listing(schema.strings), key)
        }) by {
            named_map::law_lookup_after_upsert(
                string_listing(schema.strings),
                "display_name"@,
                schema.name@,
                key,
            );
        }
        if let SchemaNode::Choice { default, variants, gui } = entries@[0].content {
            assert forall|i: int| 0 <= i < variants@.len() implies {
                &&& (#[trigger] variants@[i]).name@ == schema.options@[i].display_name@
                &&& variants@[i].strings.entries@.len() == 1
                &&& variants@[i].strings.entries@[0].0@ == "display_name"@
                &&& variants@[i].strings.entries@[0].1@ == schema.options@[i].display_name@
                &&& variants@[i].flags@ == Set::<String>::empty()
                &&& variants@[i].content is None
            } by {
                assert(is_variant(variants@[i], schema.options@[i].display_name@));
                let listed = string_listing(variants@[i].strings);
                assert(listed.len() == 1);
                law_strings_one_by_one(variants@[i].strings, 0);
                assert(listed[0] == ("display_name"@, schema.options@[i].display_name@));
            }
        }
    }
}

/// The JSON of a preset control is an object with one member, under the name of the control: an
/// object with the selection as its one member. A fresh control has the empty selection.
pub proof fn law_the_json_of_a_control(
    schema: HigherOrderChoiceSchema,
    control: Control,
    name: Seq<char>,
)
    requires
        call_ensures(Control::new, (schema,), control),
    ensures
        json::json_of(control.preset_json) matches Json::Object(fields) && {
            &&& fields.contains_key(name) <==> name == schema.name@
            &&& fields[schema.name@] matches Json::Object(inner) && {
                &&& inner.contains_key(name) <==> name == "variant"@
                &&& inner["variant"@] == Json::String(Seq::empty())
            }
        },
{
}

/// A control can take a selection where its JSON, and what stands in it under its name, are null
/// or objects.
pub proof fn law_controls_that_take_a_selection(control: Control)
    ensures
        ({
            let json = json::json_of(control.preset_json);
            control.writable() <==> match json {
                Json::Null => true,
                Json::Object(fields) => fields.contains_key(control.name@) ==> fields[control.name@]
                    is Null || fields[control.name@] is Object,
                _ => false,
            }
        }),
{
}

/// Each path of a control is rooted where it has a first segment, and a schema has a default where
/// one of its options has that name.
pub proof fn law_rooted_and_default(control: Control, schema: HigherOrderChoiceSchema)
    ensures
        (forall|i: int, k: int|
            0 <= i < control.modifiers.entries@.len() && 0 <= k
                < control.modifiers.entries@[i].1@.len() ==> (
            #[trigger] control.modifiers.entries@[i].1@[k]).path@.len() > 0) ==> control.rooted(),
        (forall|i: int, k: int|
            0 <= i < schema.options@.len() && 0 <= k < schema.options@[i].modifiers@.len() ==> (
            #[trigger] schema.options@[i].modifiers@[k]).target_path@.len() > 0)
            ==> schema.rooted(),
        (exists|i: int|
            0 <= i < schema.options@.len() && (#[trigger] schema.options@[i]).display_name@
                == schema.default_option_display_name@) ==> schema.default_is_an_option(),
{
    if forall|i: int, k: int|
        0 <= i < control.modifiers.entries@.len() && 0 <= k
            < control.modifiers.entries@[i].1@.len() ==> (
        #[trigger] control.modifiers.entries@[i].1@[k]).path@.len() > 0 {
        assert forall|i: int, j: int|
            0 <= i < control.choices().len() && 0 <= j < control.choices()[i].1.len() implies (
        #[trigger] control.choices()[i].1[j]).path.len() > 0 by {
            assert(control.modifiers.entries@[i].1@[j].path@.len() > 0);
        }
    }
}

/// A selection is written into the JSON as the member for it of the object under the name of the
/// control; every other member stays, and none is added beside these two.
pub proof fn law_a_selection_is_written(
    json: Json,
    name: Seq<char>,
    variant: Seq<char>,
    other: Seq<char>,
)
    ensures
        with_variant(json, name, variant) matches Json::Object(fields) && {
            &&& fields.contains_key(other) <==> other == name || (json matches Json::Object(before)
                && before.contains_key(other))
            &&& other != name ==> (json matches Json::Object(before) ==> before.contains_key(other)
                ==> fields[other] == before[other])
            &&& fields[name] matches Json::Object(inner) && inner.contains_key("variant"@)
                && inner["variant"@] == Json::String(variant)
        },
{
}

} // verus!
