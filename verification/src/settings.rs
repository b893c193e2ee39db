//! Settings under `lsp.typescript.settings`: the keys this extension owns,
//! and the configuration served to the language server.
use vstd::prelude::*;

use crate::json::{
    entries_view, entries_wf, find_key, items_view, json_text, json_wf, keys_sorted, keys_unique,
    law_get_after_insert, law_get_after_update, law_insert_keeps_wf, law_update_keeps_wf,
    lemma_entries_view, lemma_entries_view_ext, lemma_entries_wf, lemma_find_key, lemma_get_wf,
    lemma_insert_keys,
    lemma_items_view, lemma_keys_sorted_adjacent, lemma_obj_get_unfold, lemma_sorted_entries_ext,
    lemma_sorted_keys_unique, lemma_sorted_tail,
    obj_get, obj_insert, obj_update, object_find, object_get, object_insert, option_view,
    write_json, Entry, Json, JsonValue,
};
use crate::text::{
    chars_eq_str, chars_of, contains_char, is_ascii_digit, leading_digits, leading_digits_len,
    lemma_split_first_piece, lemma_split_nonempty, lemma_split_without_sep, push_chars, push_str,
    split, split_chars, str_lt, string_of, sub_chars,
};

verus! {

/// The id of the language server this extension registers.
pub const LANGUAGE_SERVER_ID: &'static str = "typescript";

/// The settings this extension reads for itself.
#[derive(Clone, Copy)]
pub enum ExtensionSetting {
    Version,
    UpdateChannel,
    TsdkPath,
    PprofDir,
    GoMemLimit,
    ServerArgs,
    ServerEnv,
}

impl ExtensionSetting {
    /// The dotted path of the setting under `lsp.typescript.settings`.
    pub open spec fn path_of(self) -> Seq<char> {
        match self {
            ExtensionSetting::Version => "version"@,
            ExtensionSetting::UpdateChannel => "updateChannel"@,
            ExtensionSetting::TsdkPath => "tsdk.path"@,
            ExtensionSetting::PprofDir => "server.pprofDir"@,
            ExtensionSetting::GoMemLimit => "server.goMemLimit"@,
            ExtensionSetting::ServerArgs => "server.args"@,
            ExtensionSetting::ServerEnv => "server.env"@,
        }
    }

    pub fn path(self) -> (path: &'static str)
        ensures
            path@ == self.path_of(),
    {
        match self {
            ExtensionSetting::Version => "version",
            ExtensionSetting::UpdateChannel => "updateChannel",
            ExtensionSetting::TsdkPath => "tsdk.path",
            ExtensionSetting::PprofDir => "server.pprofDir",
            ExtensionSetting::GoMemLimit => "server.goMemLimit",
            ExtensionSetting::ServerArgs => "server.args",
            ExtensionSetting::ServerEnv => "server.env",
        }
    }
}

// ---------------------------------------------------------------------------
// Reading a setting
// ---------------------------------------------------------------------------

/// The value reached from `v` through the keys `parts`, one object level per key.
pub open spec fn descend(v: Json, parts: Seq<Seq<char>>) -> Option<Json>
    decreases parts.len(),
{
    if parts.len() == 0 {
        Some(v)
    } else {
        match v {
            Json::Object(es) => match obj_get(es, parts[0]) {
                Some(child) => descend(child, parts.drop_first()),
                None => None,
            },
            _ => None,
        }
    }
}

/// The value of `setting` in the settings `settings`: the nested form
/// (`{"server": {"pprofDir": ...}}`) where it is there, else the literal
/// dotted key (`{"server.pprofDir": ...}`).
pub open spec fn setting_lookup(settings: Option<Json>, setting: ExtensionSetting) -> Option<Json> {
    match settings {
        Some(Json::Object(es)) => match descend(Json::Object(es), split(setting.path_of(), '.')) {
            Some(v) => Some(v),
            None => obj_get(es, setting.path_of()),
        },
        _ => None,
    }
}

/// Looks a setting up by its dotted path, accepting both the nested form
/// (`{"server": {"pprofDir": ...}}`) and the literal dotted key
/// (`{"server.pprofDir": ...}`). The nested form wins when both are set.
fn setting_value(settings: &Option<JsonValue>, setting: ExtensionSetting) -> (found: Option<&JsonValue>)
    ensures
        found matches Some(v) ==> setting_lookup(option_view(*settings), setting) == Some(v@),
        found is None ==> setting_lookup(option_view(*settings), setting) is None,
{
    let object = match settings {
        Some(JsonValue::Object(object)) => object,
        _ => {
            return None;
        },
    };
    let dotted_path = setting.path();
    let path_chars = chars_of(dotted_path);
    let parts = split_chars(path_chars.as_slice(), '.');
    let ghost ps = parts@.map_values(|p: Vec<char>| p@);
    proof {
        lemma_split_nonempty(dotted_path@, '.');
        assert(ps[0] == parts@[0]@);
        assert(ps.skip(0) =~= ps);
    }
    let nested = {
        let first = string_of(parts[0].as_slice());
        match object_get(object, first.as_str()) {
            None => None,
            Some(start) => {
                let mut value: &JsonValue = start;
                let mut i: usize = 1;
                let mut ok = true;
                proof {
                    assert(ps.skip(1) =~= ps.drop_first());
                }
                while i < parts.len()
                    invariant
                        1 <= i <= parts@.len(),
                        ps == parts@.map_values(|p: Vec<char>| p@),
                        ps.len() == parts@.len(),
                        ok ==> descend(Json::Object(entries_view(object@)), ps) == descend(
                            value@,
                            ps.skip(i as int),
                        ),
                        !ok ==> descend(Json::Object(entries_view(object@)), ps) is None,
                    decreases parts@.len() - i,
                {
                    proof {
                        assert(ps.skip(i as int).drop_first() =~= ps.skip(i + 1));
                        assert(ps.skip(i as int)[0] == parts@[i as int]@);
                    }
                    if ok {
                        match value {
                            JsonValue::Object(children) => {
                                let part = string_of(parts[i].as_slice());
                                match object_get(children, part.as_str()) {
                                    Some(child) => {
                                        value = child;
                                    },
                                    None => {
                                        ok = false;
                                    },
                                }
                            },
                            _ => {
                                ok = false;
                            },
                        }
                    }
                    i = i + 1;
                }
                proof {
                    assert(ps.skip(i as int) =~= Seq::<Seq<char>>::empty());
                }
                if ok {
                    Some(value)
                } else {
                    None
                }
            },
        }
    };
    match nested {
        Some(v) => Some(v),
        None => object_get(object, dotted_path),
    }
}

/// `"setting `" + path + "` must be " + what + ", got: " + the value's JSON text`.
pub open spec fn type_error(path: Seq<char>, what: Seq<char>, value: Json) -> Seq<char> {
    "setting `"@ + path + "` must be "@ + what + ", got: "@ + json_text(value)
}

/// What `string_setting` gives for the settings `settings`.
pub open spec fn string_setting_result(settings: Option<Json>, setting: ExtensionSetting) -> Result<
    Option<Seq<char>>,
    Seq<char>,
> {
    match setting_lookup(settings, setting) {
        None => Ok(None),
        Some(Json::Str(s)) => Ok(Some(s)),
        Some(v) => Err(type_error(setting.path_of(), "a string"@, v)),
    }
}

/// The strings of `items`, where every item is a string.
pub open spec fn all_strings(items: Seq<Json>) -> Option<Seq<Seq<char>>>
    decreases items.len(),
{
    if items.len() == 0 {
        Some(Seq::empty())
    } else {
        match (items[0], all_strings(items.drop_first())) {
            (Json::Str(s), Some(rest)) => Some(seq![s] + rest),
            _ => None,
        }
    }
}

/// What `string_array_setting` gives for the settings `settings`.
pub open spec fn string_array_setting_result(
    settings: Option<Json>,
    setting: ExtensionSetting,
) -> Result<Option<Seq<Seq<char>>>, Seq<char>> {
    match setting_lookup(settings, setting) {
        None => Ok(None),
        Some(v) => match v {
            Json::Array(items) => match all_strings(items) {
                Some(strings) => Ok(Some(strings)),
                None => Err(type_error(setting.path_of(), "an array of strings"@, v)),
            },
            _ => Err(type_error(setting.path_of(), "an array of strings"@, v)),
        },
    }
}

/// The entries of `es` as pairs of strings, or the first entry whose value is
/// not a string.
pub open spec fn string_entries(es: Seq<Entry>) -> Result<Seq<(Seq<char>, Seq<char>)>, Entry>
    decreases es.len(),
{
    if es.len() == 0 {
        Ok(Seq::empty())
    } else {
        match es[0].1 {
            Json::Str(s) => match string_entries(es.drop_first()) {
                Ok(rest) => Ok(seq![(es[0].0, s)] + rest),
                Err(bad) => Err(bad),
            },
            _ => Err(es[0]),
        }
    }
}

/// What `string_map_setting` gives for the settings `settings`.
pub open spec fn string_map_setting_result(settings: Option<Json>, setting: ExtensionSetting) -> Result<
    Option<Seq<(Seq<char>, Seq<char>)>>,
    Seq<char>,
> {
    match setting_lookup(settings, setting) {
        None => Ok(None),
        Some(v) => match v {
            Json::Object(es) => match string_entries(es) {
                Ok(pairs) => Ok(Some(pairs)),
                Err(bad) => Err(
                    type_error(setting.path_of() + seq!['.'] + bad.0, "a string"@, bad.1),
                ),
            },
            _ => Err(type_error(setting.path_of(), "an object of string values"@, v)),
        },
    }
}

/// The model of a result that carries an optional string.
pub open spec fn string_result_view(r: Result<Option<String>, String>) -> Result<
    Option<Seq<char>>,
    Seq<char>,
> {
    match r {
        Ok(Some(s)) => Ok(Some(s@)),
        Ok(None) => Ok(None),
        Err(e) => Err(e@),
    }
}

pub open spec fn strings_view(v: Vec<String>) -> Seq<Seq<char>> {
    v@.map_values(|s: String| s@)
}

pub open spec fn pairs_view(v: Vec<(String, String)>) -> Seq<(Seq<char>, Seq<char>)> {
    v@.map_values(|p: (String, String)| (p.0@, p.1@))
}

fn type_error_message(path: &[char], what: &str, value: &JsonValue) -> (message: String)
    ensures
        message@ == type_error(path@, what@, value@),
{
    let mut out: Vec<char> = Vec::new();
    push_str(&mut out, "setting `");
    push_chars(&mut out, path);
    push_str(&mut out, "` must be ");
    push_str(&mut out, what);
    push_str(&mut out, ", got: ");
    write_json(value, &mut out);
    proof {
        assert(out@ =~= type_error(path@, what@, value@));
    }
    string_of(out.as_slice())
}

pub fn string_setting(settings: &Option<JsonValue>, setting: ExtensionSetting) -> (result: Result<
    Option<String>,
    String,
>)
    ensures
        string_result_view(result) == string_setting_result(option_view(*settings), setting),
{
    match setting_value(settings, setting) {
        None => Ok(None),
        Some(value) => match value {
            JsonValue::Str(s) => Ok(Some(s.clone())),
            _ => {
                let path = chars_of(setting.path());
                Err(type_error_message(path.as_slice(), "a string", value))
            },
        },
    }
}

pub fn string_array_setting(settings: &Option<JsonValue>, setting: ExtensionSetting) -> (result:
    Result<Option<Vec<String>>, String>)
    ensures
        match (result, string_array_setting_result(option_view(*settings), setting)) {
            (Ok(None), Ok(None)) => true,
            (Ok(Some(v)), Ok(Some(strings))) => strings_view(v) == strings,
            (Err(e), Err(message)) => e@ == message,
            _ => false,
        },
{
    let value = match setting_value(settings, setting) {
        None => {
            return Ok(None);
        },
        Some(value) => value,
    };
    let path = chars_of(setting.path());
    let items = match value {
        JsonValue::Array(items) => items,
        _ => {
            return Err(type_error_message(path.as_slice(), "an array of strings", value));
        },
    };
    let ghost js = items_view(items@);
    proof {
        lemma_items_view(items@);
        assert(js.skip(0) =~= js);
    }
    let mut strings: Vec<String> = Vec::new();
    let mut i: usize = 0;
    while i < items.len()
        invariant
            i <= items@.len(),
            *value == JsonValue::Array(*items),
            setting_lookup(option_view(*settings), setting) == Some(value@),
            path@ == setting.path_of(),
            js == items_view(items@),
            js.len() == items@.len(),
            forall|j: int| 0 <= j < items@.len() ==> #[trigger] js[j] == items@[j]@,
            all_strings(js) == match all_strings(js.skip(i as int)) {
                Some(rest) => Some(strings_view(strings) + rest),
                None => None,
            },
        decreases items@.len() - i,
    {
        proof {
            assert(js.skip(i as int).drop_first() =~= js.skip(i + 1));
            assert(js.skip(i as int)[0] == js[i as int]);
        }
        match &items[i] {
            JsonValue::Str(s) => {
                let ghost before = strings_view(strings);
                strings.push(s.clone());
                proof {
                    assert(strings_view(strings) =~= before.push(s@));
                    match all_strings(js.skip(i + 1)) {
                        Some(rest) => {
                            assert(before + (seq![s@] + rest) =~= strings_view(strings) + rest);
                        },
                        None => {},
                    }
                }
            },
            _ => {
                proof {
                    assert(!(js[i as int] is Str));
                    assert(all_strings(js.skip(i as int)) is None);
                }
                return Err(type_error_message(path.as_slice(), "an array of strings", value));
            },
        }
        i = i + 1;
    }
    proof {
        assert(js.skip(i as int) =~= Seq::<Json>::empty());
        assert(strings_view(strings) + Seq::<Seq<char>>::empty() =~= strings_view(strings));
    }
    Ok(Some(strings))
}

pub fn string_map_setting(settings: &Option<JsonValue>, setting: ExtensionSetting) -> (result:
    Result<Option<Vec<(String, String)>>, String>)
    ensures
        match (result, string_map_setting_result(option_view(*settings), setting)) {
            (Ok(None), Ok(None)) => true,
            (Ok(Some(v)), Ok(Some(pairs))) => pairs_view(v) == pairs,
            (Err(e), Err(message)) => e@ == message,
            _ => false,
        },
{
    let value = match setting_value(settings, setting) {
        None => {
            return Ok(None);
        },
        Some(value) => value,
    };
    let path = chars_of(setting.path());
    let object = match value {
        JsonValue::Object(object) => object,
        _ => {
            return Err(type_error_message(path.as_slice(), "an object of string values", value));
        },
    };
    let ghost es = entries_view(object@);
    proof {
        lemma_entries_view(object@);
        assert(es.skip(0) =~= es);
    }
    let mut pairs: Vec<(String, String)> = Vec::new();
    let mut i: usize = 0;
    while i < object.len()
        invariant
            i <= object@.len(),
            *value == JsonValue::Object(*object),
            setting_lookup(option_view(*settings), setting) == Some(value@),
            path@ == setting.path_of(),
            es == entries_view(object@),
            es.len() == object@.len(),
            forall|j: int|
                0 <= j < object@.len() ==> #[trigger] es[j] == (object@[j].0@, object@[j].1@),
            string_entries(es) == match string_entries(es.skip(i as int)) {
                Ok(rest) => Ok(pairs_view(pairs) + rest),
                Err(bad) => Err(bad),
            },
        decreases object@.len() - i,
    {
        proof {
            assert(es.skip(i as int).drop_first() =~= es.skip(i + 1));
            assert(es.skip(i as int)[0] == es[i as int]);
        }
        match &object[i].1 {
            JsonValue::Str(s) => {
                let ghost before = pairs_view(pairs);
                pairs.push((object[i].0.clone(), s.clone()));
                proof {
                    assert(pairs_view(pairs) =~= before.push((es[i as int].0, s@)));
                    match string_entries(es.skip(i + 1)) {
                        Ok(rest) => {
                            assert(before + (seq![(es[i as int].0, s@)] + rest) =~= pairs_view(
                                pairs,
                            ) + rest);
                        },
                        Err(_) => {},
                    }
                }
            },
            _ => {
                let mut key_path = path.clone();
                key_path.push('.');
                let key_chars = chars_of(object[i].0.as_str());
                push_chars(&mut key_path, key_chars.as_slice());
                proof {
                    assert(key_path@ =~= setting.path_of() + seq!['.'] + es[i as int].0);
                    assert(!(es[i as int].1 is Str));
                    assert(string_entries(es.skip(i as int)) == Err::<
                        Seq<(Seq<char>, Seq<char>)>,
                        Entry,
                    >(es[i as int]));
                }
                return Err(type_error_message(key_path.as_slice(), "a string", &object[i].1));
            },
        }
        i = i + 1;
    }
    proof {
        assert(es.skip(i as int) =~= Seq::<Entry>::empty());
        assert(pairs_view(pairs) + Seq::<(Seq<char>, Seq<char>)>::empty() =~= pairs_view(pairs));
    }
    Ok(Some(pairs))
}

// ---------------------------------------------------------------------------
// Deep merge
// ---------------------------------------------------------------------------

/// `user` deep-merged over `target`: where both are objects, each user entry
/// is merged into the target's entry of that key, or added; otherwise the
/// user's value replaces the target.
pub open spec fn merged(user: Json, target: Json) -> Json
    decreases user, 0nat,
{
    match user {
        Json::Object(u) => match target {
            Json::Object(t) => Json::Object(merge_entries(u, t)),
            _ => user,
        },
        _ => user,
    }
}

/// The user's entries `u` merged one after the other into the entries `t`.
pub open spec fn merge_entries(u: Seq<Entry>, t: Seq<Entry>) -> Seq<Entry>
    decreases u, 0nat,
{
    if u.len() == 0 {
        t
    } else {
        merge_entries(u.drop_first(), merge_entry(t, u[0].0, u[0].1))
    }
}

/// One user entry `k: v` merged into the entries `t`.
pub open spec fn merge_entry(t: Seq<Entry>, k: Seq<char>, v: Json) -> Seq<Entry>
    decreases v, 1nat,
{
    match obj_get(t, k) {
        Some(existing) => obj_update(t, k, merged(v, existing)),
        None => obj_insert(t, k, v),
    }
}

/// Deep-merges `user` into `target`: objects recurse, anything else (scalars,
/// arrays, null) is overwritten by the user's value.
fn merge_user_value_into(user: JsonValue, target: &mut JsonValue)
    ensures
        final(target)@ == merged(user@, old(target)@),
    decreases user,
{
    match user {
        JsonValue::Object(user_entries) => {
            match target {
                JsonValue::Object(target_entries) => {
                    let ghost u = entries_view(user_entries@);
                    let ghost t0 = entries_view(target_entries@);
                    proof {
                        lemma_entries_view(user_entries@);
                        assert(u.skip(0) =~= u);
                    }
                    for entry in it: user_entries
                        invariant
                            it.seq() == user_entries@,
                            user == JsonValue::Object(user_entries),
                            u == entries_view(user_entries@),
                            u.len() == user_entries@.len(),
                            forall|j: int|
                                0 <= j < user_entries@.len() ==> #[trigger] u[j] == (
                                    user_entries@[j].0@,
                                    user_entries@[j].1@,
                                ),
                            merge_entries(u, t0) == merge_entries(
                                u.skip(it.index() as int),
                                entries_view(target_entries@),
                            ),
                    {
                        let ghost idx = it.index() as int;
                        let ghost t = entries_view(target_entries@);
                        proof {
                            assert(u.skip(idx).drop_first() =~= u.skip(idx + 1));
                            assert(u.skip(idx)[0] == u[idx]);
                            lemma_entries_view(target_entries@);
                            lemma_find_key(t, entry.0@);
                            assert(entry == user_entries@[idx]);
                            assert(decreases_to!(user => user->Object_0));
                            assert(decreases_to!(user_entries => user_entries@));
                            assert(decreases_to!(user_entries@ => user_entries@[idx]));
                            assert(decreases_to!(user_entries@[idx] => user_entries@[idx].1));
                            assert(decreases_to!(user => entry.1));
                        }
                        let (key, value) = entry;
                        match object_find(target_entries, key.as_str()) {
                            Some(i) => {
                                let (k0, mut existing) = target_entries.remove(i);
                                merge_user_value_into(value, &mut existing);
                                target_entries.insert(i, (k0, existing));
                                proof {
                                    lemma_entries_view_ext(
                                        target_entries@,
                                        t.update(
                                            i as int,
                                            (t[i as int].0, merged(u[idx].1, t[i as int].1)),
                                        ),
                                    );
                                    assert(entries_view(target_entries@) == merge_entry(
                                        t,
                                        u[idx].0,
                                        u[idx].1,
                                    ));
                                }
                            },
                            None => {
                                object_insert(target_entries, key, value);
                                assert(entries_view(target_entries@) == merge_entry(
                                    t,
                                    u[idx].0,
                                    u[idx].1,
                                ));
                            },
                        }
                    }
                    proof {
                        assert(u.skip(u.len() as int) =~= Seq::<Entry>::empty());
                    }
                },
                _ => {
                    *target = JsonValue::Object(user_entries);
                },
            }
        },
        _ => {
            *target = user;
        },
    }
}

// ---------------------------------------------------------------------------
// Dotted keys
// ---------------------------------------------------------------------------

/// The entries `t` with `value` placed at the nested path `parts`, where
/// nothing is there yet: existing values win, and a path that runs into a
/// value other than an object is dropped.
pub open spec fn dotted_insert(t: Seq<Entry>, parts: Seq<Seq<char>>, value: Json) -> Seq<Entry>
    decreases parts.len(),
{
    if parts.len() == 0 {
        t
    } else if parts.len() == 1 {
        match obj_get(t, parts[0]) {
            Some(_) => t,
            None => obj_insert(t, parts[0], value),
        }
    } else {
        match obj_get(t, parts[0]) {
            None => obj_insert(
                t,
                parts[0],
                Json::Object(dotted_insert(Seq::empty(), parts.drop_first(), value)),
            ),
            Some(Json::Object(child)) => obj_update(
                t,
                parts[0],
                Json::Object(dotted_insert(child, parts.drop_first(), value)),
            ),
            Some(_) => t,
        }
    }
}

fn merge_dotted_parts(
    target: &mut Vec<(String, JsonValue)>,
    parts: &Vec<Vec<char>>,
    idx: usize,
    value: JsonValue,
)
    requires
        idx < parts@.len(),
    ensures
        entries_view(final(target)@) == dotted_insert(
            entries_view(old(target)@),
            parts@.map_values(|p: Vec<char>| p@).skip(idx as int),
            value@,
        ),
    decreases parts@.len() - idx,
{
    let ghost ps = parts@.map_values(|p: Vec<char>| p@).skip(idx as int);
    let ghost t = entries_view(target@);
    proof {
        assert(ps[0] == parts@[idx as int]@);
        assert(ps.drop_first() =~= parts@.map_values(|p: Vec<char>| p@).skip(idx + 1));
        lemma_entries_view(target@);
        lemma_find_key(t, ps[0]);
    }
    let key = string_of(parts[idx].as_slice());
    if idx == parts.len() - 1 {
        if object_find(target, key.as_str()).is_none() {
            object_insert(target, key, value);
        }
        return ;
    }
    match object_find(target, key.as_str()) {
        None => {
            let mut child: Vec<(String, JsonValue)> = Vec::new();
            proof {
                assert(entries_view(child@) =~= Seq::<Entry>::empty());
            }
            merge_dotted_parts(&mut child, parts, idx + 1, value);
            object_insert(target, key, JsonValue::Object(child));
        },
        Some(i) => {
            let (k0, existing) = target.remove(i);
            match existing {
                JsonValue::Object(mut child) => {
                    merge_dotted_parts(&mut child, parts, idx + 1, value);
                    let ghost c = child;
                    target.insert(i, (k0, JsonValue::Object(child)));
                    proof {
                        lemma_entries_view_ext(
                            target@,
                            t.update(i as int, (t[i as int].0, Json::Object(entries_view(c@)))),
                        );
                    }
                },
                other => {
                    target.insert(i, (k0, other));
                    proof {
                        lemma_entries_view_ext(target@, t);
                    }
                },
            }
        },
    }
}

/// Expands a dotted key into a nested object path and merges it into `target`
/// without overwriting values that are already present (nested form wins).
fn merge_dotted_key(target: &mut Vec<(String, JsonValue)>, dotted_key: &str, value: JsonValue)
    ensures
        entries_view(final(target)@) == dotted_insert(
            entries_view(old(target)@),
            split(dotted_key@, '.'),
            value@,
        ),
{
    let key_chars = chars_of(dotted_key);
    let parts = split_chars(key_chars.as_slice(), '.');
    proof {
        lemma_split_nonempty(dotted_key@, '.');
        assert(parts@.map_values(|p: Vec<char>| p@).skip(0) =~= parts@.map_values(
            |p: Vec<char>| p@,
        ));
    }
    merge_dotted_parts(target, &parts, 0, value);
}

// ---------------------------------------------------------------------------
// Keys owned by the extension
// ---------------------------------------------------------------------------

/// Settings under `lsp.typescript.settings` owned by this extension rather than
/// the language server. Anything whose top-level key (or dotted-key prefix)
/// matches one of these is consumed here and stripped before the rest is
/// forwarded to the server as `workspace/configuration`.
const EXTENSION_KEY_PREFIXES: [&'static str; 4] = ["version", "updateChannel", "tsdk", "server"];

/// The top-level keys, or dotted-key prefixes, that this extension owns.
pub open spec fn extension_key_prefixes() -> Seq<Seq<char>> {
    seq!["version"@, "updateChannel"@, "tsdk"@, "server"@]
}

/// Whether `key` belongs to the extension: its part before the first `.`
/// is one of the extension's prefixes.
pub open spec fn extension_key(key: Seq<char>) -> bool {
    extension_key_prefixes().contains(split(key, '.')[0])
}

pub fn is_extension_key(key: &str) -> (owned: bool)
    ensures
        owned == extension_key(key@),
{
    let key_chars = chars_of(key);
    let parts = split_chars(key_chars.as_slice(), '.');
    proof {
        lemma_split_nonempty(key@, '.');
        assert(parts@.map_values(|p: Vec<char>| p@)[0] == parts@[0]@);
    }
    let first = &parts[0];
    let mut i: usize = 0;
    while i < 4
        invariant
            i <= 4,
            first@ == split(key@, '.')[0],
            forall|j: int| 0 <= j < i ==> extension_key_prefixes()[j] != first@,
        decreases 4 - i,
    {
        if chars_eq_str(first.as_slice(), EXTENSION_KEY_PREFIXES[i]) {
            assert(extension_key_prefixes()[i as int] == first@);
            return true;
        }
        i = i + 1;
    }
    proof {
        if extension_key_prefixes().contains(first@) {
            let j = choose|j: int| 0 <= j < 4 && extension_key_prefixes()[j] == first@;
            assert(extension_key_prefixes()[j] != first@);
        }
    }
    false
}

// ---------------------------------------------------------------------------
// The configuration served to the language server
// ---------------------------------------------------------------------------

pub open spec fn flag(name: Seq<char>, b: bool) -> Entry {
    (name, Json::Bool(b))
}

/// The entries of an object.
pub open spec fn entries_of(j: Json) -> Seq<Entry> {
    match j {
        Json::Object(es) => es,
        _ => Seq::empty(),
    }
}

/// `{"enabled": b}`.
pub open spec fn enabled(b: bool) -> Json {
    Json::Object(seq![flag("enabled"@, b)])
}

pub open spec fn implementations_code_lens() -> Json {
    Json::Object(
        seq![
            flag("enabled"@, true),
            flag("showOnAllClassMethods"@, true),
            flag("showOnInterfaceMethods"@, true),
        ],
    )
}

pub open spec fn parameter_names_hints() -> Json {
    Json::Object(
        seq![("enabled"@, Json::Str("all"@)), flag("suppressWhenArgumentMatchesName"@, false)],
    )
}

pub open spec fn variable_types_hints() -> Json {
    Json::Object(seq![flag("enabled"@, true), flag("suppressWhenTypeMatchesName"@, false)])
}

pub open spec fn inlay_hints() -> Json {
    Json::Object(
        seq![
            ("enumMemberValues"@, enabled(true)),
            ("functionLikeReturnTypes"@, enabled(true)),
            ("parameterNames"@, parameter_names_hints()),
            ("parameterTypes"@, enabled(true)),
            ("propertyDeclarationTypes"@, enabled(true)),
            ("variableTypes"@, variable_types_hints()),
        ],
    )
}

pub open spec fn references_code_lens() -> Json {
    Json::Object(seq![flag("enabled"@, true), flag("showOnAllFunctions"@, true)])
}

/// The preferences of one language (`typescript` or `javascript`) that the
/// server starts from: inlay hints and code lenses on.
pub open spec fn language_defaults() -> Json {
    Json::Object(
        seq![
            ("implementationsCodeLens"@, implementations_code_lens()),
            ("inlayHints"@, inlay_hints()),
            ("referencesCodeLens"@, references_code_lens()),
        ],
    )
}

/// The configuration the server gets when the user sets nothing.
pub open spec fn default_configuration() -> Json {
    Json::Object(seq![("javascript"@, language_defaults()), ("typescript"@, language_defaults())])
}

fn flag_entry(name: &str, b: bool) -> (e: (String, JsonValue))
    ensures
        e.0@ == name@,
        e.1@ == Json::Bool(b),
{
    (name.to_owned(), JsonValue::Bool(b))
}

fn value_entry(name: &str, value: JsonValue) -> (e: (String, JsonValue))
    ensures
        e.0@ == name@,
        e.1 == value,
{
    (name.to_owned(), value)
}

fn object_value(entries: Vec<(String, JsonValue)>, Ghost(model): Ghost<Json>) -> (v: JsonValue)
    requires
        model is Object,
        entries@.len() == entries_of(model).len(),
        forall|i: int|
            0 <= i < entries@.len() ==> (#[trigger] entries@[i]).0@ == entries_of(model)[i].0
                && entries@[i].1@ == entries_of(model)[i].1,
    ensures
        v@ == model,
{
    proof {
        lemma_entries_view_ext(entries@, entries_of(model));
    }
    JsonValue::Object(entries)
}

fn enabled_value(b: bool) -> (v: JsonValue)
    ensures
        v@ == enabled(b),
{
    object_value(vec![flag_entry("enabled", b)], Ghost(enabled(b)))
}

fn language_defaults_value() -> (v: JsonValue)
    ensures
        v@ == language_defaults(),
{
    let implementations = object_value(
        vec![
            flag_entry("enabled", true),
            flag_entry("showOnAllClassMethods", true),
            flag_entry("showOnInterfaceMethods", true),
        ],
        Ghost(implementations_code_lens()),
    );
    let parameter_names = object_value(
        vec![
            value_entry("enabled", JsonValue::Str("all".to_owned())),
            flag_entry("suppressWhenArgumentMatchesName", false),
        ],
        Ghost(parameter_names_hints()),
    );
    let variable_types = object_value(
        vec![flag_entry("enabled", true), flag_entry("suppressWhenTypeMatchesName", false)],
        Ghost(variable_types_hints()),
    );
    let inlay = object_value(
        vec![
            value_entry("enumMemberValues", enabled_value(true)),
            value_entry("functionLikeReturnTypes", enabled_value(true)),
            value_entry("parameterNames", parameter_names),
            value_entry("parameterTypes", enabled_value(true)),
            value_entry("propertyDeclarationTypes", enabled_value(true)),
            value_entry("variableTypes", variable_types),
        ],
        Ghost(inlay_hints()),
    );
    let references = object_value(
        vec![flag_entry("enabled", true), flag_entry("showOnAllFunctions", true)],
        Ghost(references_code_lens()),
    );
    object_value(
        vec![
            value_entry("implementationsCodeLens", implementations),
            value_entry("inlayHints", inlay),
            value_entry("referencesCodeLens", references),
        ],
        Ghost(language_defaults()),
    )
}

/// Server-side preference defaults, mirroring Zed's built-in vtsls adapter so
/// inlay hints and code lenses work out of the box once enabled in Zed. Only
/// keys the TypeScript 7 server actually parses are included; user settings
/// deep-merge over these with the user winning at leaf level.
fn default_workspace_configuration() -> (configuration: JsonValue)
    ensures
        configuration@ == default_configuration(),
{
    object_value(
        vec![
            value_entry("javascript", language_defaults_value()),
            value_entry("typescript", language_defaults_value()),
        ],
        Ghost(default_configuration()),
    )
}

/// The user's settings entries `es` sorted out, one after the other, into the
/// plain entries kept so far and the dotted ones kept so far; the
/// extension's own keys are dropped.
pub open spec fn sort_settings(es: Seq<Entry>, plain: Seq<Entry>, dotted: Seq<Entry>) -> (
    Seq<Entry>,
    Seq<Entry>,
)
    decreases es.len(),
{
    if es.len() == 0 {
        (plain, dotted)
    } else {
        let k = es[0].0;
        let v = es[0].1;
        if extension_key(k) {
            sort_settings(es.drop_first(), plain, dotted)
        } else if k.contains('.') {
            sort_settings(es.drop_first(), plain, dotted.push((k, v)))
        } else {
            sort_settings(es.drop_first(), obj_insert(plain, k, v), dotted)
        }
    }
}

/// The dotted entries `ds` expanded, one after the other, into `t`.
pub open spec fn expand_dotted(t: Seq<Entry>, ds: Seq<Entry>) -> Seq<Entry>
    decreases ds.len(),
{
    if ds.len() == 0 {
        t
    } else {
        expand_dotted(dotted_insert(t, split(ds[0].0, '.'), ds[0].1), ds.drop_first())
    }
}

/// The user's settings object as it goes to the server: extension-owned keys
/// stripped, plain keys kept, dotted keys expanded under them.
pub open spec fn forwarded_settings(es: Seq<Entry>) -> Seq<Entry> {
    let sorted = sort_settings(es, Seq::empty(), Seq::empty());
    expand_dotted(sorted.0, sorted.1)
}

/// The configuration served for the user's settings `settings`.
pub open spec fn configuration_for(settings: Option<Json>) -> Json {
    match settings {
        None => default_configuration(),
        Some(Json::Object(es)) => merged(Json::Object(forwarded_settings(es)), default_configuration()),
        Some(other) => other,
    }
}

/// Builds the JSON served to the language server's `workspace/configuration`
/// requests: extension-owned settings are stripped, remaining VS Code-style
/// dotted keys (`"typescript.inlayHints.parameterNames.enabled"`) are expanded
/// into the nested sections the server reads (`js/ts`, `typescript`,
/// `javascript`, `editor`), and the result is deep-merged over the defaults
/// (user wins). Nested keys win over dotted keys on conflict.
pub fn workspace_configuration(settings: Option<JsonValue>) -> (configuration: Option<JsonValue>)
    ensures
        configuration matches Some(c) && c@ == configuration_for(
            match settings {
                Some(s) => Some(s@),
                None => None,
            },
        ),
{
    let mut configuration = default_workspace_configuration();
    let settings = match settings {
        Some(settings) => settings,
        None => {
            return Some(configuration);
        },
    };
    let object = match settings {
        JsonValue::Object(object) => object,
        other => {
            // a non-object `settings` value is the user's to own; forward verbatim
            return Some(other);
        },
    };
    let ghost e = entries_view(object@);
    proof {
        lemma_entries_view(object@);
        assert(e.skip(0) =~= e);
    }
    let mut forwarded: Vec<(String, JsonValue)> = Vec::new();
    let mut dotted: Vec<(String, JsonValue)> = Vec::new();
    proof {
        assert(entries_view(forwarded@) =~= Seq::<Entry>::empty());
        assert(entries_view(dotted@) =~= Seq::<Entry>::empty());
    }
    for entry in it: object
        invariant
            it.seq() == object@,
            e == entries_view(object@),
            e.len() == object@.len(),
            forall|j: int|
                0 <= j < object@.len() ==> #[trigger] e[j] == (object@[j].0@, object@[j].1@),
            sort_settings(e, Seq::empty(), Seq::empty()) == sort_settings(
                e.skip(it.index() as int),
                entries_view(forwarded@),
                entries_view(dotted@),
            ),
    {
        let ghost idx = it.index() as int;
        let ghost p = entries_view(forwarded@);
        let ghost d = entries_view(dotted@);
        proof {
            assert(e.skip(idx).drop_first() =~= e.skip(idx + 1));
            assert(e.skip(idx)[0] == e[idx]);
            assert(entry == object@[idx]);
            lemma_entries_view(dotted@);
        }
        let (key, value) = entry;
        if !is_extension_key(key.as_str()) {
            let key_chars = chars_of(key.as_str());
            if contains_char(key_chars.as_slice(), '.') {
                let ghost kv = (key@, value@);
                dotted.push((key, value));
                proof {
                    lemma_entries_view_ext(dotted@, d.push(kv));
                }
            } else {
                object_insert(&mut forwarded, key, value);
            }
        }
    }
    proof {
        assert(e.skip(e.len() as int) =~= Seq::<Entry>::empty());
    }
    let ghost ds = entries_view(dotted@);
    proof {
        lemma_entries_view(dotted@);
        assert(ds.skip(0) =~= ds);
    }
    for entry in it: dotted
        invariant
            it.seq() == dotted@,
            ds == entries_view(dotted@),
            ds.len() == dotted@.len(),
            forall|j: int|
                0 <= j < dotted@.len() ==> #[trigger] ds[j] == (dotted@[j].0@, dotted@[j].1@),
            expand_dotted(sort_settings(e, Seq::empty(), Seq::empty()).0, ds)
                == expand_dotted(entries_view(forwarded@), ds.skip(it.index() as int)),
    {
        let ghost idx = it.index() as int;
        proof {
            assert(ds.skip(idx).drop_first() =~= ds.skip(idx + 1));
            assert(ds.skip(idx)[0] == ds[idx]);
            assert(entry == dotted@[idx]);
        }
        let (key, value) = entry;
        merge_dotted_key(&mut forwarded, key.as_str(), value);
    }
    proof {
        assert(ds.skip(ds.len() as int) =~= Seq::<Entry>::empty());
    }
    let ghost f = forwarded;
    merge_user_value_into(JsonValue::Object(forwarded), &mut configuration);
    proof {
        assert(entries_view(f@) == forwarded_settings(e));
    }
    Some(configuration)
}

// ---------------------------------------------------------------------------
// GOMEMLIMIT
// ---------------------------------------------------------------------------

/// The unit suffixes the Go runtime accepts after a byte count.
pub open spec fn go_mem_limit_suffixes() -> Seq<Seq<char>> {
    seq![""@, "B"@, "KiB"@, "MiB"@, "GiB"@, "TiB"@]
}

/// What `ensure_go_mem_limit` answers for `value`: `off`, or a non-empty run
/// of ASCII digits followed by one of the accepted suffixes, passes.
pub open spec fn go_mem_limit_check(value: Seq<char>) -> Result<(), Seq<char>> {
    let digits = leading_digits(value);
    if value == "off"@ {
        Ok(())
    } else if digits == 0 {
        Err(
            "invalid GOMEMLIMIT value `"@ + value
                + "`: expected an integer byte count with an optional B/KiB/MiB/GiB/TiB suffix, or `off`"@,
        )
    } else if go_mem_limit_suffixes().contains(value.skip(digits as int)) {
        Ok(())
    } else {
        Err(
            "invalid GOMEMLIMIT value `"@ + value
                + "`: the Go runtime only accepts B/KiB/MiB/GiB/TiB suffixes"@,
        )
    }
}

/// The model of a result that carries nothing on success.
pub open spec fn unit_result_view(r: Result<(), String>) -> Result<(), Seq<char>> {
    match r {
        Ok(()) => Ok(()),
        Err(e) => Err(e@),
    }
}

fn is_go_mem_limit_suffix(suffix: &[char]) -> (accepted: bool)
    ensures
        accepted == go_mem_limit_suffixes().contains(suffix@),
{
    let accepted = chars_eq_str(suffix, "") || chars_eq_str(suffix, "B") || chars_eq_str(
        suffix,
        "KiB",
    ) || chars_eq_str(suffix, "MiB") || chars_eq_str(suffix, "GiB") || chars_eq_str(
        suffix,
        "TiB",
    );
    proof {
        let l = go_mem_limit_suffixes();
        if accepted {
            if suffix@ == ""@ {
                assert(l[0] == suffix@);
            } else if suffix@ == "B"@ {
                assert(l[1] == suffix@);
            } else if suffix@ == "KiB"@ {
                assert(l[2] == suffix@);
            } else if suffix@ == "MiB"@ {
                assert(l[3] == suffix@);
            } else if suffix@ == "GiB"@ {
                assert(l[4] == suffix@);
            } else {
                assert(l[5] == suffix@);
            }
        } else if l.contains(suffix@) {
            let j = choose|j: int| 0 <= j < l.len() && l[j] == suffix@;
            assert(l[j] != suffix@);
        }
    }
    accepted
}

/// Validates a `GOMEMLIMIT` value per the Go runtime's rules: an integer byte
/// count with an optional `B`/`KiB`/`MiB`/`GiB`/`TiB` suffix, or `off`.
/// (Decimal fractions and SI suffixes like `MB` crash the server at startup.)
pub fn ensure_go_mem_limit(value: &str) -> (checked: Result<(), String>)
    ensures
        unit_result_view(checked) == go_mem_limit_check(value@),
{
    let chars = chars_of(value);
    if chars_eq_str(chars.as_slice(), "off") {
        return Ok(());
    }
    let digits_end = leading_digits_len(chars.as_slice());
    if digits_end == 0 {
        let mut message: Vec<char> = Vec::new();
        push_str(&mut message, "invalid GOMEMLIMIT value `");
        push_chars(&mut message, chars.as_slice());
        push_str(
            &mut message,
            "`: expected an integer byte count with an optional B/KiB/MiB/GiB/TiB suffix, or `off`",
        );
        return Err(string_of(message.as_slice()));
    }
    let suffix = sub_chars(chars.as_slice(), digits_end, chars.len());
    proof {
        assert(suffix@ =~= value@.skip(digits_end as int));
    }
    if is_go_mem_limit_suffix(suffix.as_slice()) {
        Ok(())
    } else {
        let mut message: Vec<char> = Vec::new();
        push_str(&mut message, "invalid GOMEMLIMIT value `");
        push_chars(&mut message, chars.as_slice());
        push_str(&mut message, "`: the Go runtime only accepts B/KiB/MiB/GiB/TiB suffixes");
        Err(string_of(message.as_slice()))
    }
}

// ---------------------------------------------------------------------------
// Laws
// ---------------------------------------------------------------------------

/// Deep merge, key by key: where the user's object (with distinct keys) has a
/// key, the result there is the user's value merged over the target's value
/// (the user's value alone where the target has none); every other key keeps
/// the target's value.
pub proof fn law_merge_user_wins(u: Seq<Entry>, t: Seq<Entry>, k: Seq<char>)
    requires
        keys_unique(u),
    ensures
        obj_get(merge_entries(u, t), k) == match obj_get(u, k) {
            Some(uv) => Some(
                match obj_get(t, k) {
                    Some(tv) => merged(uv, tv),
                    None => uv,
                },
            ),
            None => obj_get(t, k),
        },
    decreases u.len(),
{
    lemma_obj_get_unfold(u, k);
    if u.len() > 0 {
        let rest = u.drop_first();
        let k0 = u[0].0;
        let v0 = u[0].1;
        let t1 = merge_entry(t, k0, v0);
        assert(keys_unique(rest)) by {
            assert forall|i: int, j: int| 0 <= i < j < rest.len() implies #[trigger] rest[i].0
                != #[trigger] rest[j].0 by {
                assert(rest[i] == u[i + 1]);
                assert(rest[j] == u[j + 1]);
            }
        }
        law_merge_user_wins(rest, t1, k);
        match obj_get(t, k0) {
            Some(e) => {
                law_get_after_update(t, k0, merged(v0, e), k);
            },
            None => {
                law_get_after_insert(t, k0, v0, k);
            },
        }
        if k == k0 {
            lemma_find_key(rest, k);
            match find_key(rest, k) {
                Some(i) => {
                    assert(rest[i] == u[i + 1]);
                },
                None => {},
            }
            law_get_after_update(t, k0, v0, k);
        }
    }
}

/// Merging an empty user object changes nothing.
pub proof fn law_merge_nothing(t: Seq<Entry>)
    ensures
        merged(Json::Object(Seq::empty()), Json::Object(t)) == Json::Object(t),
{
}

/// `es` without the entries whose keys the extension owns.
pub open spec fn without_extension_keys(es: Seq<Entry>) -> Seq<Entry>
    decreases es.len(),
{
    if es.len() == 0 {
        es
    } else if extension_key(es[0].0) {
        without_extension_keys(es.drop_first())
    } else {
        seq![es[0]] + without_extension_keys(es.drop_first())
    }
}

proof fn lemma_sort_settings_ignores_extension_keys(
    es: Seq<Entry>,
    plain: Seq<Entry>,
    dotted: Seq<Entry>,
)
    ensures
        sort_settings(es, plain, dotted) == sort_settings(
            without_extension_keys(es),
            plain,
            dotted,
        ),
    decreases es.len(),
{
    if es.len() > 0 {
        let w = without_extension_keys(es);
        let wr = without_extension_keys(es.drop_first());
        if !extension_key(es[0].0) {
            assert(w.drop_first() =~= wr);
            assert(w[0] == es[0]);
            let k = es[0].0;
            let v = es[0].1;
            if k.contains('.') {
                lemma_sort_settings_ignores_extension_keys(es.drop_first(), plain, dotted.push((k, v)));
            } else {
                lemma_sort_settings_ignores_extension_keys(es.drop_first(), obj_insert(plain, k, v), dotted);
            }
        } else {
            lemma_sort_settings_ignores_extension_keys(es.drop_first(), plain, dotted);
        }
    }
}

/// Extension-owned settings are stripped: they have no effect on the
/// configuration served to the server.
pub proof fn law_extension_settings_stripped(es: Seq<Entry>)
    ensures
        configuration_for(Some(Json::Object(es))) == configuration_for(
            Some(Json::Object(without_extension_keys(es))),
        ),
{
    lemma_sort_settings_ignores_extension_keys(es, Seq::empty(), Seq::empty());
    let w = without_extension_keys(es);
    lemma_sort_settings_ignores_extension_keys(w, Seq::empty(), Seq::empty());
    lemma_without_extension_keys_idempotent(es);
}

/// Reading `es` with the extension's keys taken out: nothing under those
/// keys, and what `es` holds under every other key.
proof fn lemma_without_extension_keys_get(es: Seq<Entry>, k: Seq<char>)
    ensures
        obj_get(without_extension_keys(es), k) == if extension_key(k) {
            None
        } else {
            obj_get(es, k)
        },
    decreases es.len(),
{
    lemma_obj_get_unfold(es, k);
    if es.len() > 0 {
        let t = es.drop_first();
        lemma_without_extension_keys_get(t, k);
        if !extension_key(es[0].0) {
            let w = without_extension_keys(es);
            assert(w.drop_first() =~= without_extension_keys(t));
            lemma_obj_get_unfold(w, k);
        }
    } else {
        assert(find_key(es, k) is None);
    }
}

/// Taking the extension's keys out keeps the keys in order, and keeps only
/// entries that were there.
proof fn lemma_without_extension_keys_sorted(es: Seq<Entry>)
    requires
        keys_sorted(es),
    ensures
        keys_sorted(without_extension_keys(es)),
        forall|i: int|
            0 <= i < without_extension_keys(es).len() ==> exists|j: int|
                0 <= j < es.len() && es[j] == #[trigger] without_extension_keys(es)[i],
    decreases es.len(),
{
    if es.len() > 0 {
        let t = es.drop_first();
        lemma_sorted_tail(es);
        lemma_without_extension_keys_sorted(t);
        let wt = without_extension_keys(t);
        let w = without_extension_keys(es);
        assert forall|i: int| 0 <= i < wt.len() implies exists|j: int|
            0 <= j < es.len() && es[j] == #[trigger] wt[i] by {
            let j = choose|j: int| 0 <= j < t.len() && t[j] == wt[i];
            assert(es[j + 1] == t[j]);
        }
        if !extension_key(es[0].0) {
            assert(w =~= seq![es[0]] + wt);
            assert forall|i: int, j: int| 0 <= i < j < w.len() implies str_lt(
                #[trigger] w[i].0,
                #[trigger] w[j].0,
            ) by {
                assert(w[j] == wt[j - 1]);
                if i == 0 {
                    let n = choose|n: int| 0 <= n < t.len() && t[n] == wt[j - 1];
                    assert(t[n] == es[n + 1]);
                } else {
                    assert(w[i] == wt[i - 1]);
                }
            }
            assert forall|i: int| 0 <= i < w.len() implies exists|j: int|
                0 <= j < es.len() && es[j] == #[trigger] w[i] by {
                if i == 0 {
                    assert(es[0] == w[0]);
                } else {
                    assert(w[i] == wt[i - 1]);
                }
            }
        }
    }
}

/// Two settings objects that hold the same values under every key the
/// extension does not own give the same configuration: what is set under
/// `version`, `updateChannel`, `tsdk` or `server` never reaches the server.
pub proof fn law_extension_settings_never_forwarded(es1: Seq<Entry>, es2: Seq<Entry>)
    requires
        keys_sorted(es1),
        keys_sorted(es2),
        forall|k: Seq<char>| !extension_key(k) ==> #[trigger] obj_get(es1, k) == obj_get(es2, k),
    ensures
        configuration_for(Some(Json::Object(es1))) == configuration_for(Some(Json::Object(es2))),
{
    law_extension_settings_stripped(es1);
    law_extension_settings_stripped(es2);
    lemma_without_extension_keys_sorted(es1);
    lemma_without_extension_keys_sorted(es2);
    let w1 = without_extension_keys(es1);
    let w2 = without_extension_keys(es2);
    assert forall|k: Seq<char>| #[trigger] obj_get(w1, k) == obj_get(w2, k) by {
        lemma_without_extension_keys_get(es1, k);
        lemma_without_extension_keys_get(es2, k);
    }
    lemma_sorted_entries_ext(w1, w2);
}

proof fn lemma_without_extension_keys_idempotent(es: Seq<Entry>)
    ensures
        without_extension_keys(without_extension_keys(es)) == without_extension_keys(es),
    decreases es.len(),
{
    if es.len() > 0 {
        lemma_without_extension_keys_idempotent(es.drop_first());
        if !extension_key(es[0].0) {
            let w = without_extension_keys(es);
            assert(w.drop_first() =~= without_extension_keys(es.drop_first()));
        }
    }
}

/// Settings that only hold extension-owned keys give the defaults, as if
/// nothing were set.
pub proof fn law_only_extension_settings_give_defaults(es: Seq<Entry>)
    requires
        forall|i: int| 0 <= i < es.len() ==> extension_key(#[trigger] es[i].0),
    ensures
        configuration_for(Some(Json::Object(es))) == configuration_for(None),
{
    law_extension_settings_stripped(es);
    lemma_without_only_extension_keys(es);
    let w = without_extension_keys(es);
    assert(w == Seq::<Entry>::empty());
    assert(forwarded_settings(w) == Seq::<Entry>::empty());
    law_merge_nothing(entries_of(default_configuration()));
}

proof fn lemma_without_only_extension_keys(es: Seq<Entry>)
    requires
        forall|i: int| 0 <= i < es.len() ==> extension_key(#[trigger] es[i].0),
    ensures
        without_extension_keys(es) == Seq::<Entry>::empty(),
    decreases es.len(),
{
    if es.len() > 0 {
        assert(extension_key(es[0].0));
        assert forall|i: int| 0 <= i < es.drop_first().len() implies extension_key(
            #[trigger] es.drop_first()[i].0,
        ) by {
            assert(es.drop_first()[i] == es[i + 1]);
        }
        lemma_without_only_extension_keys(es.drop_first());
    }
}

/// The nested form of a setting wins over its literal dotted key.
pub proof fn law_nested_setting_wins(es: Seq<Entry>, setting: ExtensionSetting, v: Json)
    requires
        descend(Json::Object(es), split(setting.path_of(), '.')) == Some(v),
    ensures
        setting_lookup(Some(Json::Object(es)), setting) == Some(v),
{
}

/// Where the literal dotted key is the only form set, it is read.
pub proof fn law_dotted_setting_read(es: Seq<Entry>, setting: ExtensionSetting)
    requires
        descend(Json::Object(es), split(setting.path_of(), '.')) is None,
    ensures
        setting_lookup(Some(Json::Object(es)), setting) == obj_get(es, setting.path_of()),
{
}

/// Expanding a dotted key never overwrites: where its path already leads to a
/// value, the object stays as it was (the nested form wins).
pub proof fn law_dotted_key_keeps_existing(t: Seq<Entry>, parts: Seq<Seq<char>>, v: Json)
    requires
        parts.len() >= 1,
        descend(Json::Object(t), parts) is Some,
    ensures
        dotted_insert(t, parts, v) == t,
    decreases parts.len(),
{
    lemma_find_key(t, parts[0]);
    if parts.len() > 1 {
        match obj_get(t, parts[0]) {
            Some(Json::Object(child)) => {
                assert(descend(Json::Object(child), parts.drop_first()) is Some);
                law_dotted_key_keeps_existing(child, parts.drop_first(), v);
                let i = find_key(t, parts[0]).unwrap();
                assert(t.update(i, (t[i].0, Json::Object(child))) =~= t);
            },
            _ => {},
        }
    }
}

/// Expanding a dotted key where nothing blocks its path puts the value there.
pub proof fn law_dotted_key_places_value(t: Seq<Entry>, parts: Seq<Seq<char>>, v: Json)
    requires
        parts.len() >= 1,
        path_open(t, parts),
        descend(Json::Object(t), parts) is None,
    ensures
        descend(Json::Object(dotted_insert(t, parts, v)), parts) == Some(v),
    decreases parts.len(),
{
    let r = dotted_insert(t, parts, v);
    let rest = parts.drop_first();
    if parts.len() == 1 {
        law_get_after_insert(t, parts[0], v, parts[0]);
        if let Some(child) = obj_get(t, parts[0]) {
            assert(descend(child, rest) == Some(child));
        }
        assert(obj_get(r, parts[0]) == Some(v));
        assert(descend(v, rest) == Some(v));
    } else {
        match obj_get(t, parts[0]) {
            Some(Json::Object(child)) => {
                law_dotted_key_places_value(child, rest, v);
                let c2 = dotted_insert(child, rest, v);
                law_get_after_update(t, parts[0], Json::Object(c2), parts[0]);
                assert(obj_get(r, parts[0]) == Some(Json::Object(c2)));
                assert(descend(Json::Object(r), parts) == descend(Json::Object(c2), rest));
            },
            None => {
                let e = Seq::<Entry>::empty();
                assert(obj_get(e, rest[0]) is None);
                law_dotted_key_places_value(e, rest, v);
                let c2 = dotted_insert(e, rest, v);
                law_get_after_insert(t, parts[0], Json::Object(c2), parts[0]);
                assert(obj_get(r, parts[0]) == Some(Json::Object(c2)));
                assert(descend(Json::Object(r), parts) == descend(Json::Object(c2), rest));
            },
            _ => {},
        }
    }
}

/// No value other than an object stands on the way along `parts` (the last
/// key excepted).
pub open spec fn path_open(t: Seq<Entry>, parts: Seq<Seq<char>>) -> bool
    decreases parts.len(),
{
    if parts.len() <= 1 {
        true
    } else {
        match obj_get(t, parts[0]) {
            None => true,
            Some(Json::Object(child)) => path_open(child, parts.drop_first()),
            Some(_) => false,
        }
    }
}

/// Deep merge keeps documents well formed: merging a well-formed user value
/// over a well-formed target gives a well-formed value.
pub proof fn law_merge_keeps_wf(user: Json, target: Json)
    requires
        json_wf(user),
        json_wf(target),
    ensures
        json_wf(merged(user, target)),
    decreases user,
{
    match user {
        Json::Object(u) => match target {
            Json::Object(t) => {
                lemma_merge_entries_wf(u, t);
            },
            _ => {},
        },
        _ => {},
    }
}

proof fn lemma_merge_entries_wf(u: Seq<Entry>, t: Seq<Entry>)
    requires
        entries_wf(u),
        keys_sorted(t),
        entries_wf(t),
    ensures
        keys_sorted(merge_entries(u, t)),
        entries_wf(merge_entries(u, t)),
    decreases u,
{
    if u.len() > 0 {
        let k0 = u[0].0;
        let v0 = u[0].1;
        match obj_get(t, k0) {
            Some(e) => {
                lemma_get_wf(t, k0);
                law_merge_keeps_wf(v0, e);
                law_update_keeps_wf(t, k0, merged(v0, e));
            },
            None => {
                law_insert_keeps_wf(t, k0, v0);
            },
        }
        lemma_merge_entries_wf(u.drop_first(), merge_entry(t, k0, v0));
    }
}

/// Merging a well-formed value over itself gives it back.
proof fn lemma_merge_self(d: Json)
    requires
        json_wf(d),
    ensures
        merged(d, d) == d,
    decreases d,
{
    if let Json::Object(t) = d {
        lemma_entries_wf(t);
        lemma_sorted_keys_unique(t);
        lemma_merge_entries_wf(t, t);
        assert forall|k: Seq<char>| #[trigger] obj_get(merge_entries(t, t), k) == obj_get(t, k) by {
            law_merge_user_wins(t, t, k);
            lemma_find_key(t, k);
            if let Some(i) = find_key(t, k) {
                lemma_merge_self(t[i].1);
            }
        }
        lemma_sorted_entries_ext(merge_entries(t, t), t);
    }
}

/// Merging `x` over `d` a second time changes nothing.
proof fn lemma_merge_again(x: Json, d: Json)
    requires
        json_wf(x),
        json_wf(d),
    ensures
        merged(merged(x, d), d) == merged(x, d),
    decreases x,
{
    if let Json::Object(u) = x {
        if let Json::Object(t) = d {
            lemma_entries_wf(u);
            lemma_entries_wf(t);
            lemma_sorted_keys_unique(u);
            lemma_merge_entries_wf(u, t);
            let m = merge_entries(u, t);
            lemma_sorted_keys_unique(m);
            lemma_merge_entries_wf(m, t);
            assert forall|k: Seq<char>| #[trigger] obj_get(merge_entries(m, t), k) == obj_get(m, k) by {
                law_merge_user_wins(u, t, k);
                law_merge_user_wins(m, t, k);
                lemma_find_key(u, k);
                lemma_find_key(t, k);
                if let Some(j) = find_key(t, k) {
                    if let Some(i) = find_key(u, k) {
                        lemma_merge_again(u[i].1, t[j].1);
                    } else {
                        lemma_merge_self(t[j].1);
                    }
                }
            }
            lemma_sorted_entries_ext(merge_entries(m, t), m);
        }
    }
}

/// Expanding a dotted key keeps an object well formed.
pub proof fn law_dotted_key_keeps_wf(t: Seq<Entry>, parts: Seq<Seq<char>>, v: Json)
    requires
        keys_sorted(t),
        entries_wf(t),
        json_wf(v),
    ensures
        keys_sorted(dotted_insert(t, parts, v)),
        entries_wf(dotted_insert(t, parts, v)),
    decreases parts.len(),
{
    if parts.len() == 1 {
        if obj_get(t, parts[0]) is None {
            law_insert_keeps_wf(t, parts[0], v);
        }
    } else if parts.len() > 1 {
        let rest = parts.drop_first();
        match obj_get(t, parts[0]) {
            None => {
                let e = Seq::<Entry>::empty();
                law_dotted_key_keeps_wf(e, rest, v);
                law_insert_keeps_wf(t, parts[0], Json::Object(dotted_insert(e, rest, v)));
            },
            Some(Json::Object(child)) => {
                lemma_get_wf(t, parts[0]);
                law_dotted_key_keeps_wf(child, rest, v);
                law_update_keeps_wf(t, parts[0], Json::Object(dotted_insert(child, rest, v)));
            },
            Some(_) => {},
        }
    }
}

proof fn lemma_sort_settings_wf(es: Seq<Entry>, plain: Seq<Entry>, dotted: Seq<Entry>)
    requires
        entries_wf(es),
        keys_sorted(plain),
        entries_wf(plain),
        entries_wf(dotted),
    ensures
        keys_sorted(sort_settings(es, plain, dotted).0),
        entries_wf(sort_settings(es, plain, dotted).0),
        entries_wf(sort_settings(es, plain, dotted).1),
    decreases es.len(),
{
    if es.len() > 0 {
        let k = es[0].0;
        let v = es[0].1;
        if extension_key(k) {
            lemma_sort_settings_wf(es.drop_first(), plain, dotted);
        } else if k.contains('.') {
            lemma_entries_wf(dotted);
            lemma_entries_wf(dotted.push((k, v)));
            lemma_sort_settings_wf(es.drop_first(), plain, dotted.push((k, v)));
        } else {
            law_insert_keeps_wf(plain, k, v);
            lemma_sort_settings_wf(es.drop_first(), obj_insert(plain, k, v), dotted);
        }
    }
}

proof fn lemma_expand_dotted_wf(t: Seq<Entry>, ds: Seq<Entry>)
    requires
        keys_sorted(t),
        entries_wf(t),
        entries_wf(ds),
    ensures
        keys_sorted(expand_dotted(t, ds)),
        entries_wf(expand_dotted(t, ds)),
    decreases ds.len(),
{
    if ds.len() > 0 {
        law_dotted_key_keeps_wf(t, split(ds[0].0, '.'), ds[0].1);
        lemma_expand_dotted_wf(dotted_insert(t, split(ds[0].0, '.'), ds[0].1), ds.drop_first());
    }
}

/// The default configuration is well formed.
pub proof fn lemma_default_configuration_wf()
    ensures
        json_wf(default_configuration()),
{
    reveal_strlit("enabled");
    reveal_strlit("showOnAllClassMethods");
    reveal_strlit("showOnInterfaceMethods");
    reveal_strlit("suppressWhenArgumentMatchesName");
    reveal_strlit("suppressWhenTypeMatchesName");
    reveal_strlit("showOnAllFunctions");
    reveal_strlit("enumMemberValues");
    reveal_strlit("functionLikeReturnTypes");
    reveal_strlit("parameterNames");
    reveal_strlit("parameterTypes");
    reveal_strlit("propertyDeclarationTypes");
    reveal_strlit("variableTypes");
    reveal_strlit("implementationsCodeLens");
    reveal_strlit("inlayHints");
    reveal_strlit("referencesCodeLens");
    reveal_strlit("javascript");
    reveal_strlit("typescript");
    reveal_with_fuel(str_lt, 11);
    let small = seq![enabled(true), implementations_code_lens(), parameter_names_hints(),
        variable_types_hints(), references_code_lens()];
    assert forall|i: int| 0 <= i < small.len() implies json_wf(#[trigger] small[i]) by {
        lemma_keys_sorted_adjacent(entries_of(small[i]));
        lemma_entries_wf(entries_of(small[i]));
    }
    lemma_keys_sorted_adjacent(entries_of(inlay_hints()));
    lemma_entries_wf(entries_of(inlay_hints()));
    assert(json_wf(inlay_hints()));
    lemma_keys_sorted_adjacent(entries_of(language_defaults()));
    lemma_entries_wf(entries_of(language_defaults()));
    assert(json_wf(language_defaults()));
    lemma_keys_sorted_adjacent(entries_of(default_configuration()));
    lemma_entries_wf(entries_of(default_configuration()));
}

/// The configuration served to the server is well formed whenever the
/// settings it comes from are.
pub proof fn law_configuration_wf(settings: Option<Json>)
    requires
        settings matches Some(s) ==> json_wf(s),
    ensures
        json_wf(configuration_for(settings)),
{
    lemma_default_configuration_wf();
    match settings {
        Some(Json::Object(es)) => {
            let e = Seq::<Entry>::empty();
            lemma_sort_settings_wf(es, e, e);
            let sorted = sort_settings(es, e, e);
            lemma_expand_dotted_wf(sorted.0, sorted.1);
            law_merge_keeps_wf(Json::Object(forwarded_settings(es)), default_configuration());
        },
        _ => {},
    }
}

/// The user's settings are deep-merged over the defaults, the user winning:
/// at every top-level key of the configuration served for a well-formed
/// settings object, the forwarded user value merged over the default value
/// stands, or whichever of the two is there alone.
pub proof fn law_configuration_user_wins(es: Seq<Entry>, k: Seq<char>)
    requires
        json_wf(Json::Object(es)),
    ensures
        configuration_for(Some(Json::Object(es))) == Json::Object(
            merge_entries(forwarded_settings(es), entries_of(default_configuration())),
        ),
        obj_get(merge_entries(forwarded_settings(es), entries_of(default_configuration())), k)
            == match obj_get(forwarded_settings(es), k) {
            Some(uv) => Some(
                match obj_get(entries_of(default_configuration()), k) {
                    Some(dv) => merged(uv, dv),
                    None => uv,
                },
            ),
            None => obj_get(entries_of(default_configuration()), k),
        },
{
    let e = Seq::<Entry>::empty();
    lemma_sort_settings_wf(es, e, e);
    let sorted = sort_settings(es, e, e);
    lemma_expand_dotted_wf(sorted.0, sorted.1);
    lemma_sorted_keys_unique(forwarded_settings(es));
    law_merge_user_wins(forwarded_settings(es), entries_of(default_configuration()), k);
}

/// A key that a configuration object can hold at its top level as it is:
/// not one of the extension's own and not dotted.
pub open spec fn plain_key(k: Seq<char>) -> bool {
    !extension_key(k) && !k.contains('.')
}

/// Every key of `es` is plain.
pub open spec fn plain_keys(es: Seq<Entry>) -> bool {
    forall|i: int| 0 <= i < es.len() ==> plain_key(#[trigger] es[i].0)
}

/// The part of a key the extension does not own before its first dot is plain.
proof fn lemma_first_part_plain(k: Seq<char>)
    requires
        !extension_key(k),
    ensures
        plain_key(split(k, '.')[0]),
{
    lemma_split_first_piece(k, '.');
    let p = split(k, '.')[0];
    lemma_split_without_sep(p, '.');
    assert(split(p, '.')[0] == p);
}

proof fn lemma_insert_plain(es: Seq<Entry>, k: Seq<char>, v: Json)
    requires
        plain_keys(es),
        plain_key(k),
    ensures
        plain_keys(obj_insert(es, k, v)),
{
    let r = obj_insert(es, k, v);
    assert forall|j: int| 0 <= j < r.len() implies plain_key(#[trigger] r[j].0) by {
        lemma_insert_keys(es, k, v, j);
        if r[j].0 != k {
            let m = choose|m: int| 0 <= m < es.len() && es[m].0 == r[j].0;
            assert(plain_key(es[m].0));
        }
    }
}

proof fn lemma_update_plain(es: Seq<Entry>, k: Seq<char>, v: Json)
    requires
        plain_keys(es),
    ensures
        plain_keys(obj_update(es, k, v)),
{
    let r = obj_update(es, k, v);
    lemma_find_key(es, k);
    assert forall|j: int| 0 <= j < r.len() implies plain_key(#[trigger] r[j].0) by {
        assert(r[j].0 == es[j].0);
    }
}

proof fn lemma_dotted_insert_plain(t: Seq<Entry>, parts: Seq<Seq<char>>, v: Json)
    requires
        plain_keys(t),
        parts.len() >= 1 ==> plain_key(parts[0]),
    ensures
        plain_keys(dotted_insert(t, parts, v)),
{
    if parts.len() == 1 {
        lemma_insert_plain(t, parts[0], v);
    } else if parts.len() > 1 {
        let rest = parts.drop_first();
        match obj_get(t, parts[0]) {
            None => {
                lemma_insert_plain(
                    t,
                    parts[0],
                    Json::Object(dotted_insert(Seq::empty(), rest, v)),
                );
            },
            Some(Json::Object(child)) => {
                lemma_update_plain(t, parts[0], Json::Object(dotted_insert(child, rest, v)));
            },
            Some(_) => {},
        }
    }
}

proof fn lemma_expand_dotted_plain(t: Seq<Entry>, ds: Seq<Entry>)
    requires
        plain_keys(t),
        forall|i: int| 0 <= i < ds.len() ==> !extension_key(#[trigger] ds[i].0),
    ensures
        plain_keys(expand_dotted(t, ds)),
    decreases ds.len(),
{
    if ds.len() > 0 {
        assert(!extension_key(ds[0].0));
        lemma_first_part_plain(ds[0].0);
        lemma_split_nonempty(ds[0].0, '.');
        lemma_dotted_insert_plain(t, split(ds[0].0, '.'), ds[0].1);
        let rest = ds.drop_first();
        assert forall|i: int| 0 <= i < rest.len() implies !extension_key(#[trigger] rest[i].0) by {
            assert(rest[i] == ds[i + 1]);
        }
        lemma_expand_dotted_plain(dotted_insert(t, split(ds[0].0, '.'), ds[0].1), rest);
    }
}

proof fn lemma_sort_settings_plain(es: Seq<Entry>, plain: Seq<Entry>, dotted: Seq<Entry>)
    requires
        plain_keys(plain),
        forall|i: int| 0 <= i < dotted.len() ==> !extension_key(#[trigger] dotted[i].0),
    ensures
        plain_keys(sort_settings(es, plain, dotted).0),
        forall|i: int|
            0 <= i < sort_settings(es, plain, dotted).1.len() ==> !extension_key(
                #[trigger] sort_settings(es, plain, dotted).1[i].0,
            ),
    decreases es.len(),
{
    if es.len() > 0 {
        let k = es[0].0;
        let v = es[0].1;
        if extension_key(k) {
            lemma_sort_settings_plain(es.drop_first(), plain, dotted);
        } else if k.contains('.') {
            let d2 = dotted.push((k, v));
            assert forall|i: int| 0 <= i < d2.len() implies !extension_key(#[trigger] d2[i].0) by {
                if i < dotted.len() {
                    assert(d2[i] == dotted[i]);
                }
            }
            lemma_sort_settings_plain(es.drop_first(), plain, d2);
        } else {
            lemma_insert_plain(plain, k, v);
            lemma_sort_settings_plain(es.drop_first(), obj_insert(plain, k, v), dotted);
        }
    }
}

/// Every key of the settings forwarded to the server is plain.
proof fn lemma_forwarded_plain(es: Seq<Entry>)
    ensures
        plain_keys(forwarded_settings(es)),
{
    let e = Seq::<Entry>::empty();
    lemma_sort_settings_plain(es, e, e);
    let sorted = sort_settings(es, e, e);
    lemma_expand_dotted_plain(sorted.0, sorted.1);
}

/// Inserting a key greater than every key there appends it.
proof fn lemma_obj_insert_last(p: Seq<Entry>, k: Seq<char>, v: Json)
    requires
        forall|i: int| 0 <= i < p.len() ==> str_lt(#[trigger] p[i].0, k),
    ensures
        obj_insert(p, k, v) == p.push((k, v)),
    decreases p.len(),
{
    if p.len() > 0 {
        crate::text::lemma_str_lt_irreflexive(k);
        if str_lt(k, p[0].0) {
            crate::text::lemma_str_lt_transitive(k, p[0].0, k);
        }
        let t = p.drop_first();
        assert forall|i: int| 0 <= i < t.len() implies str_lt(#[trigger] t[i].0, k) by {
            assert(t[i] == p[i + 1]);
        }
        lemma_obj_insert_last(t, k, v);
        assert(obj_insert(p, k, v) =~= p.push((k, v)));
    } else {
        assert(obj_insert(p, k, v) =~= p.push((k, v)));
    }
}

proof fn lemma_sort_plain_settings(es: Seq<Entry>, p: Seq<Entry>)
    requires
        keys_sorted(p),
        keys_sorted(es),
        plain_keys(es),
        forall|i: int, j: int|
            0 <= i < p.len() && 0 <= j < es.len() ==> str_lt(#[trigger] p[i].0, #[trigger] es[j].0),
    ensures
        sort_settings(es, p, Seq::empty()) == (p + es, Seq::<Entry>::empty()),
    decreases es.len(),
{
    if es.len() == 0 {
        assert(p + es =~= p);
    } else {
        let k = es[0].0;
        let v = es[0].1;
        assert(plain_key(es[0].0));
        assert forall|i: int| 0 <= i < p.len() implies str_lt(#[trigger] p[i].0, k) by {}
        lemma_obj_insert_last(p, k, v);
        let p2 = p.push((k, v));
        let t = es.drop_first();
        lemma_sorted_tail(es);
        assert forall|i: int, j: int| 0 <= i < j < p2.len() implies str_lt(
            #[trigger] p2[i].0,
            #[trigger] p2[j].0,
        ) by {
            assert(p2[i] == p[i]);
            if j == p.len() {
                assert(p2[j] == es[0]);
            } else {
                assert(p2[j] == p[j]);
            }
        }
        assert forall|j: int| 0 <= j < t.len() implies plain_key(#[trigger] t[j].0) by {
            assert(t[j] == es[j + 1]);
        }
        assert forall|i: int, j: int| 0 <= i < p2.len() && 0 <= j < t.len() implies str_lt(
            #[trigger] p2[i].0,
            #[trigger] t[j].0,
        ) by {
            assert(t[j] == es[j + 1]);
            if i == p.len() {
                assert(p2[i] == es[0]);
            } else {
                assert(p2[i] == p[i]);
            }
        }
        lemma_sort_plain_settings(t, p2);
        assert(p2 + t =~= p + es);
    }
}

/// Settings whose keys are in order and all plain are forwarded as they are.
proof fn lemma_forwarded_plain_unchanged(es: Seq<Entry>)
    requires
        keys_sorted(es),
        plain_keys(es),
    ensures
        forwarded_settings(es) == es,
{
    let e = Seq::<Entry>::empty();
    lemma_sort_plain_settings(es, e);
    assert(e + es =~= es);
}

proof fn lemma_merge_entries_plain(u: Seq<Entry>, t: Seq<Entry>)
    requires
        keys_unique(u),
        plain_keys(u),
        plain_keys(t),
    ensures
        plain_keys(merge_entries(u, t)),
{
    let m = merge_entries(u, t);
    assert forall|j: int| 0 <= j < m.len() implies plain_key(#[trigger] m[j].0) by {
        let k = m[j].0;
        lemma_find_key(m, k);
        law_merge_user_wins(u, t, k);
        lemma_find_key(u, k);
        lemma_find_key(t, k);
        if let Some(i) = find_key(u, k) {
            assert(plain_key(u[i].0));
        } else if let Some(i) = find_key(t, k) {
            assert(plain_key(t[i].0));
        }
    }
}

/// The default configuration's keys are plain.
proof fn lemma_default_configuration_plain()
    ensures
        plain_keys(entries_of(default_configuration())),
{
    reveal_strlit("javascript");
    reveal_strlit("typescript");
    reveal_strlit("version");
    reveal_strlit("updateChannel");
    reveal_strlit("tsdk");
    reveal_strlit("server");
    let js = "javascript"@;
    let ts = "typescript"@;
    assert forall|i: int| 0 <= i < js.len() implies js[i] != '.' by {}
    assert forall|i: int| 0 <= i < ts.len() implies ts[i] != '.' by {}
    lemma_split_without_sep(js, '.');
    lemma_split_without_sep(ts, '.');
    assert(!extension_key_prefixes().contains(js));
    assert(!extension_key_prefixes().contains(ts));
}

/// Serving the configuration back as the user's settings gives the same
/// configuration again: applying `workspace_configuration` to its own
/// result changes nothing.
pub proof fn law_configuration_idempotent(settings: Option<Json>)
    requires
        settings matches Some(s) ==> json_wf(s),
    ensures
        configuration_for(Some(configuration_for(settings))) == configuration_for(settings),
{
    lemma_default_configuration_wf();
    lemma_default_configuration_plain();
    let dflt = entries_of(default_configuration());
    lemma_forwarded_plain_unchanged(dflt);
    match settings {
        None => {
            lemma_merge_self(default_configuration());
        },
        Some(Json::Object(es)) => {
            let e = Seq::<Entry>::empty();
            lemma_sort_settings_wf(es, e, e);
            let sorted = sort_settings(es, e, e);
            lemma_expand_dotted_wf(sorted.0, sorted.1);
            let f = forwarded_settings(es);
            lemma_forwarded_plain(es);
            lemma_sorted_keys_unique(f);
            lemma_merge_entries_plain(f, dflt);
            let m = merge_entries(f, dflt);
            law_merge_keeps_wf(Json::Object(f), default_configuration());
            lemma_forwarded_plain_unchanged(m);
            lemma_merge_again(Json::Object(f), default_configuration());
        },
        Some(_) => {},
    }
}

/// Leading digits before something that is not a digit are counted up to it.
pub proof fn lemma_leading_digits_concat(d: Seq<char>, s: Seq<char>)
    requires
        forall|i: int| 0 <= i < d.len() ==> is_ascii_digit(#[trigger] d[i]),
        s.len() == 0 || !is_ascii_digit(s[0]),
    ensures
        leading_digits(d + s) == d.len(),
    decreases d.len(),
{
    if d.len() == 0 {
        assert(d + s =~= s);
    } else {
        let t = d.drop_first();
        assert forall|i: int| 0 <= i < t.len() implies is_ascii_digit(#[trigger] t[i]) by {
            assert(t[i] == d[i + 1]);
        }
        lemma_leading_digits_concat(t, s);
        assert((d + s).drop_first() =~= t + s);
        assert((d + s)[0] == d[0]);
    }
}

/// A `GOMEMLIMIT` byte count, a non-empty run of ASCII digits, followed by
/// nothing, `B`, `KiB`, `MiB`, `GiB` or `TiB` is accepted. Followed by any
/// other suffix (one that does not go on with digits) it is refused, the
/// message naming the value and the accepted suffixes.
pub proof fn law_go_mem_limit_byte_counts(digits: Seq<char>, suffix: Seq<char>)
    requires
        digits.len() > 0,
        forall|i: int| 0 <= i < digits.len() ==> is_ascii_digit(#[trigger] digits[i]),
        suffix.len() == 0 || !is_ascii_digit(suffix[0]),
    ensures
        (suffix == ""@ || suffix == "B"@ || suffix == "KiB"@ || suffix == "MiB"@ || suffix == "GiB"@
            || suffix == "TiB"@) ==> go_mem_limit_check(digits + suffix) == Ok::<(), Seq<char>>(()),
        !(suffix == ""@ || suffix == "B"@ || suffix == "KiB"@ || suffix == "MiB"@ || suffix
            == "GiB"@ || suffix == "TiB"@) ==> go_mem_limit_check(digits + suffix) == Err::<
            (),
            Seq<char>,
        >(
            "invalid GOMEMLIMIT value `"@ + (digits + suffix)
                + "`: the Go runtime only accepts B/KiB/MiB/GiB/TiB suffixes"@,
        ),
{
    reveal_strlit("off");
    reveal_strlit("");
    reveal_strlit("B");
    reveal_strlit("KiB");
    reveal_strlit("MiB");
    reveal_strlit("GiB");
    reveal_strlit("TiB");
    let value = digits + suffix;
    lemma_leading_digits_concat(digits, suffix);
    assert(value[0] == digits[0]);
    assert(value != "off"@) by {
        assert("off"@[0] == 'o');
    }
    assert(value.skip(digits.len() as int) =~= suffix);
    let l = go_mem_limit_suffixes();
    if suffix == ""@ {
        assert(l[0] == suffix);
    } else if suffix == "B"@ {
        assert(l[1] == suffix);
    } else if suffix == "KiB"@ {
        assert(l[2] == suffix);
    } else if suffix == "MiB"@ {
        assert(l[3] == suffix);
    } else if suffix == "GiB"@ {
        assert(l[4] == suffix);
    } else if suffix == "TiB"@ {
        assert(l[5] == suffix);
    } else {
        assert forall|i: int| 0 <= i < l.len() implies l[i] != suffix by {}
    }
}

/// `off` is accepted, and any other value that does not start with an ASCII
/// digit is refused as not being a byte count.
pub proof fn law_go_mem_limit_needs_a_byte_count(value: Seq<char>)
    ensures
        go_mem_limit_check("off"@) == Ok::<(), Seq<char>>(()),
        value != "off"@ && (value.len() == 0 || !is_ascii_digit(value[0])) ==> go_mem_limit_check(
            value,
        ) == Err::<(), Seq<char>>(
            "invalid GOMEMLIMIT value `"@ + value
                + "`: expected an integer byte count with an optional B/KiB/MiB/GiB/TiB suffix, or `off`"@,
        ),
{
}

/// With nothing set, the server gets, for `javascript` and for `typescript`
/// alike, code lenses for implementations (on all class and interface
/// methods) and references (on all functions), and every inlay hint on:
/// parameter names for all arguments, even those matching the name, and
/// parameter, variable (even where matching the name), property declaration,
/// function return and enum member types.
pub proof fn law_default_configuration_document()
    ensures
        ({
            let on = Json::Object(seq![("enabled"@, Json::Bool(true))]);
            let language = Json::Object(
                seq![
                    (
                        "implementationsCodeLens"@,
                        Json::Object(
                            seq![
                                ("enabled"@, Json::Bool(true)),
                                ("showOnAllClassMethods"@, Json::Bool(true)),
                                ("showOnInterfaceMethods"@, Json::Bool(true)),
                            ],
                        ),
                    ),
                    (
                        "inlayHints"@,
                        Json::Object(
                            seq![
                                ("enumMemberValues"@, on),
                                ("functionLikeReturnTypes"@, on),
                                (
                                    "parameterNames"@,
                                    Json::Object(
                                        seq![
                                            ("enabled"@, Json::Str("all"@)),
                                            ("suppressWhenArgumentMatchesName"@, Json::Bool(false)),
                                        ],
                                    ),
                                ),
                                ("parameterTypes"@, on),
                                ("propertyDeclarationTypes"@, on),
                                (
                                    "variableTypes"@,
                                    Json::Object(
                                        seq![
                                            ("enabled"@, Json::Bool(true)),
                                            ("suppressWhenTypeMatchesName"@, Json::Bool(false)),
                                        ],
                                    ),
                                ),
                            ],
                        ),
                    ),
                    (
                        "referencesCodeLens"@,
                        Json::Object(
                            seq![
                                ("enabled"@, Json::Bool(true)),
                                ("showOnAllFunctions"@, Json::Bool(true)),
                            ],
                        ),
                    ),
                ],
            );
            configuration_for(None) == Json::Object(
                seq![("javascript"@, language), ("typescript"@, language)],
            )
        }),
{
}

} // verus!
