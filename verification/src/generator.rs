//! The reconciliation engine: merges the messages found in the source into
//! the translation tables of each locale, and lays out the files that hold
//! the outcome.

use crate::assoc::{
    distinct_keys, has_key, inserted, inserted_all, lemma_inserted, lemma_inserted_all,
    lemma_last_pair, lemma_no_keys, lemma_position, lemma_swap_removed, lookup, position,
    swap_removed,
};
use crate::extractor::Message;
use crate::table::{
    sorted_by_key, table_entries, table_get, table_get_index, table_insert, table_len, table_new,
    table_sort_keys, table_swap_remove, translation_entries, translations_get,
    translations_get_index, translations_insert, translations_len, translations_new,
    translations_sort_keys, Entries, Table, Tables, Translations,
};
use crate::text::{
    chars_of, contains, final_segment, has_substring, last_segment, leading_end,
    leading_text_end, same_text, string_of, strip_prefix, trim_start, trimmed_start,
    without_leading_text, CharClass,
};
use vstd::prelude::*;

verus! {

/// The mark that a translator puts at the front of a pending text to say
/// that it is translated.
pub open spec fn completion_marker() -> Seq<char> {
    "DONE"@
}

/// The text with which a pending entry moves to the completed ones: what
/// follows the completion marker, without leading whitespace. An entry that
/// does not begin with the marker does not move.
pub open spec fn promoted_text(value: Seq<char>) -> Option<Seq<char>> {
    if completion_marker().is_prefix_of(value) {
        Some(trimmed_start(value.skip(completion_marker().len() as int)))
    } else {
        None
    }
}

/// The completed entries together with the marked entries of `todo`, each
/// taken in with its promoted text, first to last.
pub open spec fn promoted(done: Entries, todo: Entries) -> Entries
    decreases todo.len(),
{
    if todo.len() == 0 {
        done
    } else {
        let before = promoted(done, todo.drop_last());
        match promoted_text(todo.last().1) {
            Some(text) => inserted(before, todo.last().0, text),
            None => before,
        }
    }
}

/// The draft with which a key that was never translated starts: the text of
/// the default locale, or else the last dot-separated segment of the key.
pub open spec fn draft(defaults: Entries, key: Seq<char>) -> Seq<char> {
    match lookup(defaults, key) {
        Some(text) => text,
        None => final_segment(key, '.'),
    }
}

/// The tables while the messages are sorted into them: `carry` holds the
/// earlier translations that no message has claimed yet.
pub struct Sorting {
    pub carry: Entries,
    pub done: Entries,
    pub todo: Entries,
}

/// The tables after one more key: a key that `carry` holds moves from there
/// to `done` with its text; any other key becomes pending with its draft.
pub open spec fn sorted_key(state: Sorting, defaults: Entries, key: Seq<char>) -> Sorting {
    match lookup(state.carry, key) {
        Some(text) => Sorting {
            carry: swap_removed(state.carry, key),
            done: inserted(state.done, key, text),
            todo: state.todo,
        },
        None => Sorting { todo: inserted(state.todo, key, draft(defaults, key)), ..state },
    }
}

/// The tables after all of `keys`, first to last, starting from empty `done`
/// and `todo`.
pub open spec fn sorted_keys(carry: Entries, defaults: Entries, keys: Seq<Seq<char>>) -> Sorting
    decreases keys.len(),
{
    if keys.len() == 0 {
        Sorting { carry, done: Seq::empty(), todo: Seq::empty() }
    } else {
        sorted_key(sorted_keys(carry, defaults, keys.drop_last()), defaults, keys.last())
    }
}

/// The three tables of one locale.
pub struct Reconciled {
    pub done: Entries,
    pub todo: Entries,
    pub removed: Entries,
}

/// The entries of `table` whose key is not among `keys`, in order.
pub open spec fn unnamed(table: Entries, keys: Seq<Seq<char>>) -> Entries
    decreases table.len(),
{
    if table.len() == 0 {
        Seq::empty()
    } else if keys.contains(table.last().0) {
        unnamed(table.drop_last(), keys)
    } else {
        unnamed(table.drop_last(), keys).push(table.last())
    }
}

/// The tables of one locale after a reconciliation pass over `keys`, the keys
/// of the current messages in discovery order.
///
/// The marked entries of `todo` join `done`. Each key that this pool holds
/// keeps its text in the new `done`; each other key becomes pending with its
/// draft. The stale entries whose key a message names again leave `removed`;
/// what is left of the pool, the translations that no message names any more,
/// is added to it.
pub open spec fn reconciled(
    done: Entries,
    todo: Entries,
    removed: Entries,
    defaults: Entries,
    keys: Seq<Seq<char>>,
) -> Reconciled {
    let state = sorted_keys(promoted(done, todo), defaults, keys);
    Reconciled {
        done: state.done,
        todo: state.todo,
        removed: inserted_all(unnamed(removed, keys), state.carry),
    }
}

/// The keys of the messages, in order.
pub open spec fn message_keys(messages: Seq<Message>) -> Seq<Seq<char>> {
    Seq::new(messages.len(), |i: int| messages[i].key@)
}

/// The table of `locale`; an empty one where the locale has none.
pub open spec fn table_of(data: Tables, locale: Seq<char>) -> Entries {
    match lookup(data, locale) {
        Some(table) => table,
        None => Seq::empty(),
    }
}

/// A copy of the table of `locale`; an empty one where the locale has none.
fn locale_table(data: &Translations, locale: &str) -> (table: Table)
    ensures
        table_entries(table) == table_of(translation_entries(*data), locale@),
        distinct_keys(table_entries(table)),
{
    match translations_get(data, locale) {
        Some(table) => table,
        None => table_new(),
    }
}

/// Reconciles the tables of one locale with the current messages.
/// `default_val` holds the completed texts of the default locale, from which
/// drafts are taken; it is empty when the default locale itself is reconciled.
pub fn update_todo_done_removed(
    data_done: &mut Translations,
    data_todo: &mut Translations,
    data_removed: &mut Translations,
    locale: &str,
    default_val: &Table,
    messages: &Vec<Message>,
)
    ensures
        ({
            let outcome = reconciled(
                table_of(translation_entries(*old(data_done)), locale@),
                table_of(translation_entries(*old(data_todo)), locale@),
                table_of(translation_entries(*old(data_removed)), locale@),
                table_entries(*default_val),
                message_keys(messages@),
            );
            &&& translation_entries(*final(data_done)) == inserted(
                translation_entries(*old(data_done)),
                locale@,
                outcome.done,
            )
            &&& translation_entries(*final(data_todo)) == inserted(
                translation_entries(*old(data_todo)),
                locale@,
                outcome.todo,
            )
            &&& translation_entries(*final(data_removed)) == inserted(
                translation_entries(*old(data_removed)),
                locale@,
                outcome.removed,
            )
        }),
        distinct_keys(translation_entries(*final(data_done))),
        distinct_keys(translation_entries(*final(data_todo))),
        distinct_keys(translation_entries(*final(data_removed))),
{
    let list_todo = locale_table(data_todo, locale);
    let stale = locale_table(data_removed, locale);
    let mut carry = locale_table(data_done, locale);
    let ghost done0 = table_entries(carry);
    let ghost todo0 = table_entries(list_todo);
    let ghost removed0 = table_entries(stale);
    let ghost defaults = table_entries(*default_val);
    let ghost keys = message_keys(messages@);

    let pending = table_len(&list_todo);
    let mut i: usize = 0;
    assert(todo0.take(0) =~= Seq::<(Seq<char>, Seq<char>)>::empty());
    while i < pending
        invariant
            i <= pending == todo0.len(),
            todo0 == table_entries(list_todo),
            table_entries(carry) == promoted(done0, todo0.take(i as int)),
            distinct_keys(table_entries(carry)),
        decreases pending - i,
    {
        let (key, value) = table_get_index(&list_todo, i);
        assert(todo0.take(i + 1).drop_last() =~= todo0.take(i as int));
        if let Some(stripped) = strip_prefix(value.as_str(), "DONE") {
            table_insert(&mut carry, key, trim_start(stripped.as_str()));
        }
        i = i + 1;
    }
    assert(todo0.take(pending as int) =~= todo0);
    let ghost carry0 = table_entries(carry);

    let mut list_done = table_new();
    let mut list_todo = table_new();
    let mut j: usize = 0;
    assert(keys.take(0) =~= Seq::<Seq<char>>::empty());
    while j < messages.len()
        invariant
            j <= messages.len(),
            keys == message_keys(messages@),
            defaults == table_entries(*default_val),
            sorted_keys(carry0, defaults, keys.take(j as int)) == (Sorting {
                carry: table_entries(carry),
                done: table_entries(list_done),
                todo: table_entries(list_todo),
            }),
        decreases messages.len() - j,
    {
        let message = &messages[j];
        assert(keys.take(j + 1).drop_last() =~= keys.take(j as int));
        assert(keys.take(j + 1).last() == message.key@);
        match table_swap_remove(&mut carry, message.key.as_str()) {
            Some(text) => {
                table_insert(&mut list_done, message.key.clone(), text);
            },
            None => {
                let value = match table_get(default_val, message.key.as_str()) {
                    Some(text) => text,
                    None => last_segment(message.key.as_str(), '.'),
                };
                table_insert(&mut list_todo, message.key.clone(), value);
            },
        }
        j = j + 1;
    }
    assert(keys.take(messages.len() as int) =~= keys);
    let ghost left = table_entries(carry);
    proof {
        lemma_sorted_keys(carry0, defaults, keys);
    }

    let mut list_removed = table_new();
    let earlier = table_len(&stale);
    let mut n: usize = 0;
    assert(removed0.take(0) =~= Seq::<(Seq<char>, Seq<char>)>::empty());
    while n < earlier
        invariant
            n <= earlier == removed0.len(),
            removed0 == table_entries(stale),
            distinct_keys(removed0),
            forall|k: Seq<char>|
                keys.contains(k) <==> (has_key(table_entries(list_done), k) || has_key(
                    table_entries(list_todo),
                    k,
                )),
            table_entries(list_removed) == unnamed(removed0.take(n as int), keys),
        decreases earlier - n,
    {
        let (key, value) = table_get_index(&stale, n);
        assert(removed0.take(n + 1).drop_last() =~= removed0.take(n as int));
        assert(removed0.take(n + 1).last() == removed0[n as int]);
        let named = table_get(&list_done, key.as_str()).is_some() || table_get(
            &list_todo,
            key.as_str(),
        ).is_some();
        if !named {
            proof {
                lemma_unnamed(removed0.take(n as int), keys);
                assert(!has_key(removed0.take(n as int), key@)) by {
                    if has_key(removed0.take(n as int), key@) {
                        let at = position(removed0.take(n as int), key@);
                        assert(removed0[at].0 == removed0[n as int].0);
                    }
                }
            }
            table_insert(&mut list_removed, key, value);
        }
        n = n + 1;
    }
    assert(removed0.take(earlier as int) =~= removed0);
    let ghost kept = table_entries(list_removed);

    let orphans = table_len(&carry);
    let mut k: usize = 0;
    assert(left.take(0) =~= Seq::<(Seq<char>, Seq<char>)>::empty());
    while k < orphans
        invariant
            k <= orphans == left.len(),
            left == table_entries(carry),
            table_entries(list_removed) == inserted_all(kept, left.take(k as int)),
        decreases orphans - k,
    {
        let (key, value) = table_get_index(&carry, k);
        assert(left.take(k + 1).drop_last() =~= left.take(k as int));
        table_insert(&mut list_removed, key, value);
        k = k + 1;
    }
    assert(left.take(orphans as int) =~= left);

    translations_insert(data_done, locale.to_owned(), list_done);
    translations_insert(data_todo, locale.to_owned(), list_todo);
    translations_insert(data_removed, locale.to_owned(), list_removed);
}

/// The settings of a run.
#[derive(Debug, Clone)]
pub struct Config {
    /// The reference locale, whose completed texts are the drafts of the others.
    pub default_locale: String,
    /// Every locale to reconcile, in order.
    pub available_locales: Vec<String>,
    /// The directory of the translation files.
    pub load_path: String,
    /// The layout of the files: 1 for a flat file per locale, 2 for one file
    /// that gives each key its text by locale. No other version is supported.
    pub generate_version: usize,
    /// The text format of the files: `json`, `toml`, or anything else for YAML.
    pub generate_extension: String,
}

/// The views of a sequence of strings.
pub open spec fn texts(strings: Seq<String>) -> Seq<Seq<char>> {
    Seq::new(strings.len(), |i: int| strings[i]@)
}

/// The three sets of tables: completed, pending and stale translations.
pub struct Buckets {
    pub done: Tables,
    pub todo: Tables,
    pub removed: Tables,
}

/// The buckets after `locale` is reconciled.
pub open spec fn reconciled_locale(
    buckets: Buckets,
    locale: Seq<char>,
    defaults: Entries,
    keys: Seq<Seq<char>>,
) -> Buckets {
    let outcome = reconciled(
        table_of(buckets.done, locale),
        table_of(buckets.todo, locale),
        table_of(buckets.removed, locale),
        defaults,
        keys,
    );
    Buckets {
        done: inserted(buckets.done, locale, outcome.done),
        todo: inserted(buckets.todo, locale, outcome.todo),
        removed: inserted(buckets.removed, locale, outcome.removed),
    }
}

/// The buckets after every locale of `locales` but the default one is
/// reconciled, first to last, with `defaults` as the source of drafts.
pub open spec fn reconciled_others(
    buckets: Buckets,
    default_locale: Seq<char>,
    defaults: Entries,
    locales: Seq<Seq<char>>,
    keys: Seq<Seq<char>>,
) -> Buckets
    decreases locales.len(),
{
    if locales.len() == 0 {
        buckets
    } else {
        let before = reconciled_others(buckets, default_locale, defaults, locales.drop_last(), keys);
        if locales.last() == default_locale {
            before
        } else {
            reconciled_locale(before, locales.last(), defaults, keys)
        }
    }
}

/// The buckets after a whole run: the default locale is reconciled first,
/// without drafts from elsewhere; its completed texts are then the drafts of
/// every other locale.
pub open spec fn reconciled_all(
    buckets: Buckets,
    default_locale: Seq<char>,
    locales: Seq<Seq<char>>,
    keys: Seq<Seq<char>>,
) -> Buckets {
    let first = reconciled_locale(buckets, default_locale, Seq::empty(), keys);
    reconciled_others(first, default_locale, table_of(first.done, default_locale), locales, keys)
}

/// Reconciles every locale of the settings with the current messages.
pub fn reconcile(
    data_done: &mut Translations,
    data_todo: &mut Translations,
    data_removed: &mut Translations,
    cfg: &Config,
    messages: &Vec<Message>,
)
    ensures
        (Buckets {
            done: translation_entries(*final(data_done)),
            todo: translation_entries(*final(data_todo)),
            removed: translation_entries(*final(data_removed)),
        }) == reconciled_all(
            Buckets {
                done: translation_entries(*old(data_done)),
                todo: translation_entries(*old(data_todo)),
                removed: translation_entries(*old(data_removed)),
            },
            cfg.default_locale@,
            texts(cfg.available_locales@),
            message_keys(messages@),
        ),
        distinct_keys(translation_entries(*final(data_done))),
        distinct_keys(translation_entries(*final(data_todo))),
        distinct_keys(translation_entries(*final(data_removed))),
{
    let ghost start = Buckets {
        done: translation_entries(*data_done),
        todo: translation_entries(*data_todo),
        removed: translation_entries(*data_removed),
    };
    let ghost keys = message_keys(messages@);
    let ghost locales = texts(cfg.available_locales@);
    let nothing = table_new();
    update_todo_done_removed(
        data_done,
        data_todo,
        data_removed,
        cfg.default_locale.as_str(),
        &nothing,
        messages,
    );
    let ghost first = Buckets {
        done: translation_entries(*data_done),
        todo: translation_entries(*data_todo),
        removed: translation_entries(*data_removed),
    };
    assert(first == reconciled_locale(start, cfg.default_locale@, Seq::empty(), keys));
    let data_done_default = locale_table(data_done, cfg.default_locale.as_str());
    let ghost defaults = table_entries(data_done_default);
    let mut i: usize = 0;
    assert(locales.take(0) =~= Seq::<Seq<char>>::empty());
    while i < cfg.available_locales.len()
        invariant
            i <= cfg.available_locales.len(),
            locales == texts(cfg.available_locales@),
            keys == message_keys(messages@),
            defaults == table_entries(data_done_default),
            distinct_keys(translation_entries(*data_done)),
            distinct_keys(translation_entries(*data_todo)),
            distinct_keys(translation_entries(*data_removed)),
            (Buckets {
                done: translation_entries(*data_done),
                todo: translation_entries(*data_todo),
                removed: translation_entries(*data_removed),
            }) == reconciled_others(
                first,
                cfg.default_locale@,
                defaults,
                locales.take(i as int),
                keys,
            ),
        decreases cfg.available_locales.len() - i,
    {
        let locale = &cfg.available_locales[i];
        assert(locales.take(i + 1).drop_last() =~= locales.take(i as int));
        assert(locales.take(i + 1).last() == locale@);
        if !same_text(locale.as_str(), cfg.default_locale.as_str()) {
            update_todo_done_removed(
                data_done,
                data_todo,
                data_removed,
                locale.as_str(),
                &data_done_default,
                messages,
            );
        }
        i = i + 1;
    }
    assert(locales.take(cfg.available_locales.len() as int) =~= locales);
}

/// The tables after one row is turned: each text of `row`, the table stored
/// under `outer`, is put under its own key, and there under `outer`.
pub open spec fn with_row(out: Tables, outer: Seq<char>, row: Entries) -> Tables
    decreases row.len(),
{
    if row.len() == 0 {
        out
    } else {
        let before = with_row(out, outer, row.drop_last());
        let (inner, text) = row.last();
        inserted(before, inner, inserted(table_of(before, inner), outer, text))
    }
}

/// Tables by locale turned into tables by key, or back: the text that `data`
/// holds under `a`, then `b`, is held under `b`, then `a`.
pub open spec fn transposed(data: Tables) -> Tables
    decreases data.len(),
{
    if data.len() == 0 {
        Seq::empty()
    } else {
        with_row(transposed(data.drop_last()), data.last().0, data.last().1)
    }
}

/// Turns tables by locale into tables by key, or back.
pub fn translations_transpose(data: &Translations) -> (out: Translations)
    ensures
        translation_entries(out) == transposed(translation_entries(*data)),
{
    let ghost all = translation_entries(*data);
    let mut out = translations_new();
    let rows = translations_len(data);
    let mut i: usize = 0;
    assert(all.take(0) =~= Seq::<(Seq<char>, Seq<(Seq<char>, Seq<char>)>)>::empty());
    while i < rows
        invariant
            i <= rows == all.len(),
            all == translation_entries(*data),
            translation_entries(out) == transposed(all.take(i as int)),
        decreases rows - i,
    {
        let (outer, row) = translations_get_index(data, i);
        let ghost cells = table_entries(row);
        let ghost before = translation_entries(out);
        assert(all.take(i + 1).drop_last() =~= all.take(i as int));
        let width = table_len(&row);
        let mut j: usize = 0;
        assert(cells.take(0) =~= Seq::<(Seq<char>, Seq<char>)>::empty());
        while j < width
            invariant
                j <= width == cells.len(),
                cells == table_entries(row),
                translation_entries(out) == with_row(before, outer@, cells.take(j as int)),
            decreases width - j,
        {
            let (inner, text) = table_get_index(&row, j);
            assert(cells.take(j + 1).drop_last() =~= cells.take(j as int));
            let mut column = locale_table(&out, inner.as_str());
            table_insert(&mut column, outer.clone(), text);
            translations_insert(&mut out, inner, column);
            j = j + 1;
        }
        assert(cells.take(width as int) =~= cells);
        i = i + 1;
    }
    assert(all.take(rows as int) =~= all);
    out
}

/// The text formats in which a file can be written.
#[derive(Clone, Copy, Debug, PartialEq, Eq, Structural)]
pub enum Codec {
    Json,
    Toml,
    Yaml,
}

/// The codec that a format setting names: `json`, `toml`, and YAML for
/// anything else.
pub open spec fn codec_named(format: Seq<char>) -> Codec {
    if format == "json"@ {
        Codec::Json
    } else if format == "toml"@ {
        Codec::Toml
    } else {
        Codec::Yaml
    }
}

/// The file name extension of a codec.
pub open spec fn extension_of(codec: Codec) -> Seq<char> {
    match codec {
        Codec::Json => ".json"@,
        Codec::Toml => ".toml"@,
        Codec::Yaml => ".yml"@,
    }
}

/// The text of a file, from what the codec rendered: YAML loses a leading
/// document marker and the whitespace after it, the others stay as they are.
pub open spec fn finished(codec: Codec, rendered: Seq<char>) -> Seq<char> {
    match codec {
        Codec::Yaml => trimmed_start(without_leading_text(rendered, "---"@)),
        _ => rendered,
    }
}

/// The codec that a format setting names.
pub fn codec_of(format: &str) -> (codec: Codec)
    ensures
        codec == codec_named(format@),
{
    if same_text(format, "json") {
        Codec::Json
    } else if same_text(format, "toml") {
        Codec::Toml
    } else {
        Codec::Yaml
    }
}

/// The file name extension of a codec.
pub fn file_extension(codec: Codec) -> (extension: &'static str)
    ensures
        extension@ == extension_of(codec),
{
    match codec {
        Codec::Json => ".json",
        Codec::Toml => ".toml",
        Codec::Yaml => ".yml",
    }
}

/// Finishes the text that the codec of `format` rendered, and gives the
/// extension of the file that holds it.
pub fn format_data(rendered: &str, format: &str) -> (r: (String, &'static str))
    ensures
        r.0@ == finished(codec_named(format@), rendered@),
        r.1@ == extension_of(codec_named(format@)),
{
    let codec = codec_of(format);
    let text = match codec {
        Codec::Yaml => {
            let v = chars_of(rendered);
            let marker = chars_of("---");
            assert(v@.subrange(0, v.len() as int) =~= v@);
            let a = leading_text_end(&v, 0, v.len(), &marker);
            let b = leading_end(&v, a, v.len(), CharClass::Whitespace);
            string_of(&v, b, v.len())
        },
        _ => rendered.to_owned(),
    };
    (text, file_extension(codec))
}

/// What a file holds.
#[derive(Debug)]
pub enum FileData {
    /// The texts of one locale by key.
    Flat(Table),
    /// The texts of every key by locale.
    Transposed(Translations),
}

/// A file to write.
#[derive(Debug)]
pub struct OutputFile {
    /// The name of the file within the directory of translations.
    pub name: String,
    /// The number of entries at the top level of `data`.
    pub count: usize,
    /// The version tag written beside the data.
    pub version: usize,
    /// The entries, in ascending order of their keys.
    pub data: FileData,
}

impl OutputFile {
    /// The file is the flat file called `name` for `table`.
    pub open spec fn is_flat(&self, name: Seq<char>, table: Entries) -> bool {
        &&& self.name@ == name
        &&& self.count == table.len()
        &&& self.version == 1
        &&& self.data is Flat
        &&& sorted_by_key(table_entries(self.data->Flat_0), table)
    }

    /// The file is the transposed file called `name` for `tables`.
    pub open spec fn is_transposed(&self, name: Seq<char>, tables: Tables) -> bool {
        &&& self.name@ == name
        &&& self.count == tables.len()
        &&& self.version == 2
        &&& self.data is Transposed
        &&& sorted_by_key(translation_entries(self.data->Transposed_0), tables)
    }
}

/// The locales of `locales` that have at least one entry in `data`, in order.
pub open spec fn nonempty_locales(locales: Seq<Seq<char>>, data: Tables) -> Seq<Seq<char>>
    decreases locales.len(),
{
    if locales.len() == 0 {
        Seq::empty()
    } else if table_of(data, locales.last()).len() > 0 {
        nonempty_locales(locales.drop_last(), data).push(locales.last())
    } else {
        nonempty_locales(locales.drop_last(), data)
    }
}

/// `files` are the files of one bucket in the version-1 layout: one flat file
/// for each locale that has entries, named by prefix, locale and extension.
pub open spec fn flat_layout(
    files: Seq<OutputFile>,
    prefix: Seq<char>,
    extension: Seq<char>,
    locales: Seq<Seq<char>>,
    data: Tables,
) -> bool {
    let chosen = nonempty_locales(locales, data);
    &&& files.len() == chosen.len()
    &&& forall|i: int|
        0 <= i < files.len() ==> (#[trigger] files[i]).is_flat(
            prefix + chosen[i] + extension,
            table_of(data, chosen[i]),
        )
}

/// `files` are the files of one bucket in the version-2 layout: a single file
/// named by prefix, `app` and extension that holds the transposed tables, or
/// no file where there is no entry at all.
pub open spec fn transposed_layout(
    files: Seq<OutputFile>,
    prefix: Seq<char>,
    extension: Seq<char>,
    data: Tables,
) -> bool {
    if transposed(data).len() == 0 {
        files.len() == 0
    } else {
        files.len() == 1 && files[0].is_transposed(prefix + "app"@ + extension, transposed(data))
    }
}

/// `files` are the files of one bucket under the settings.
pub open spec fn layout(files: Seq<OutputFile>, prefix: Seq<char>, cfg: Config, data: Tables) -> bool {
    let extension = extension_of(codec_named(cfg.generate_extension@));
    if cfg.generate_version == 1 {
        flat_layout(files, prefix, extension, texts(cfg.available_locales@), data)
    } else {
        transposed_layout(files, prefix, extension, data)
    }
}

/// The layouts that files can be written in: version 1 and version 2.
pub open spec fn supported(version: usize) -> bool {
    version == 1 || version == 2
}

/// Tells whether files can be laid out in this version.
pub fn is_supported_version(version: usize) -> (r: bool)
    ensures
        r == supported(version),
{
    version == 1 || version == 2
}

/// The name of a file: prefix, middle part and extension.
fn file_name(prefix: &str, middle: &str, extension: &str) -> (name: String)
    ensures
        name@ == prefix@ + middle@ + extension@,
{
    let mut name = prefix.to_owned();
    name.append(middle);
    name.append(extension);
    name
}

/// Lays out the files of one bucket. The settings must ask for a supported
/// version.
pub fn write_file(filename_prefix: &str, cfg: &Config, translations: &Translations) -> (files: Vec<
    OutputFile,
>)
    requires
        supported(cfg.generate_version),
    ensures
        layout(files@, filename_prefix@, *cfg, translation_entries(*translations)),
{
    let extension = file_extension(codec_of(cfg.generate_extension.as_str()));
    let ghost data = translation_entries(*translations);
    let ghost locales = texts(cfg.available_locales@);
    let mut files: Vec<OutputFile> = Vec::new();
    if cfg.generate_version == 1 {
        let mut i: usize = 0;
        assert(locales.take(0) =~= Seq::<Seq<char>>::empty());
        while i < cfg.available_locales.len()
            invariant
                i <= cfg.available_locales.len(),
                locales == texts(cfg.available_locales@),
                data == translation_entries(*translations),
                flat_layout(files@, filename_prefix@, extension@, locales.take(i as int), data),
            decreases cfg.available_locales.len() - i,
        {
            let locale = &cfg.available_locales[i];
            assert(locales.take(i + 1).drop_last() =~= locales.take(i as int));
            assert(locales.take(i + 1).last() == locale@);
            let mut file_data = locale_table(translations, locale.as_str());
            let count = table_len(&file_data);
            if count > 0 {
                table_sort_keys(&mut file_data);
                let ghost before = files@;
                files.push(
                    OutputFile {
                        name: file_name(filename_prefix, locale.as_str(), extension),
                        count,
                        version: 1,
                        data: FileData::Flat(file_data),
                    },
                );
                assert(forall|k: int| 0 <= k < before.len() ==> files@[k] == before[k]);
            }
            i = i + 1;
        }
        assert(locales.take(cfg.available_locales.len() as int) =~= locales);
    } else {
        let mut file_data = translations_transpose(translations);
        let count = translations_len(&file_data);
        if count > 0 {
            translations_sort_keys(&mut file_data);
            files.push(
                OutputFile {
                    name: file_name(filename_prefix, "app", extension),
                    count,
                    version: 2,
                    data: FileData::Transposed(file_data),
                },
            );
        }
    }
    files
}

/// The prefix in the names of the files of pending translations.
pub open spec fn todo_prefix() -> Seq<char> {
    "TODO."@
}

/// The prefix in the names of the files of stale translations.
pub open spec fn removed_prefix() -> Seq<char> {
    "REMOVED."@
}

/// Tells whether a file is to be skipped when the completed translations are
/// loaded: it is one of the pending or of the stale ones.
pub fn ignore_file_ndone(fname: &str) -> (r: bool)
    ensures
        r == (has_substring(fname@, "TODO"@) || has_substring(fname@, "REMOVED"@)),
{
    contains(fname, "TODO") || contains(fname, "REMOVED")
}

/// Tells whether a file is to be skipped when the pending translations are
/// loaded.
pub fn ignore_file_ntodo(fname: &str) -> (r: bool)
    ensures
        r == !has_substring(fname@, "TODO"@),
{
    !contains(fname, "TODO")
}

/// Tells whether a file is to be skipped when the stale translations are
/// loaded.
pub fn ignore_file_nremoved(fname: &str) -> (r: bool)
    ensures
        r == !has_substring(fname@, "REMOVED"@),
{
    !contains(fname, "REMOVED")
}

/// The files of the three buckets.
#[derive(Debug)]
pub struct Generated {
    pub done: Vec<OutputFile>,
    pub todo: Vec<OutputFile>,
    pub removed: Vec<OutputFile>,
}

/// Reconciles the loaded tables of every locale with the current messages
/// and lays out the files to write. The settings must ask for a supported
/// version.
pub fn generate(
    data_done: &mut Translations,
    data_todo: &mut Translations,
    data_removed: &mut Translations,
    cfg: &Config,
    messages: &Vec<Message>,
) -> (files: Generated)
    requires
        supported(cfg.generate_version),
    ensures
        (Buckets {
            done: translation_entries(*final(data_done)),
            todo: translation_entries(*final(data_todo)),
            removed: translation_entries(*final(data_removed)),
        }) == reconciled_all(
            Buckets {
                done: translation_entries(*old(data_done)),
                todo: translation_entries(*old(data_todo)),
                removed: translation_entries(*old(data_removed)),
            },
            cfg.default_locale@,
            texts(cfg.available_locales@),
            message_keys(messages@),
        ),
        layout(files.done@, Seq::empty(), *cfg, translation_entries(*final(data_done))),
        layout(files.todo@, todo_prefix(), *cfg, translation_entries(*final(data_todo))),
        layout(files.removed@, removed_prefix(), *cfg, translation_entries(*final(data_removed))),
        distinct_keys(translation_entries(*final(data_done))),
        distinct_keys(translation_entries(*final(data_todo))),
        distinct_keys(translation_entries(*final(data_removed))),
{
    reconcile(data_done, data_todo, data_removed, cfg, messages);
    proof {
        reveal_strlit("");
        assert(""@ =~= Seq::<char>::empty());
    }
    let done = write_file("", cfg, data_done);
    let todo = write_file("TODO.", cfg, data_todo);
    let removed = write_file("REMOVED.", cfg, data_removed);
    Generated { done, todo, removed }
}

/// An entry of `todo` bears the completion marker under the key `key`.
pub open spec fn marked(todo: Entries, key: Seq<char>) -> bool {
    exists|i: int| 0 <= i < todo.len() && (#[trigger] todo[i]).0 == key && promoted_text(todo[i].1) is Some
}

/// The pool of earlier translations: its keys are distinct, they are the keys
/// of `done` and the marked keys of `todo`, and a key that is not marked has
/// the text that `done` gives it.
pub proof fn lemma_promoted(done: Entries, todo: Entries)
    requires
        distinct_keys(done),
    ensures
        distinct_keys(promoted(done, todo)),
        forall|k: Seq<char>|
            has_key(promoted(done, todo), k) <==> (has_key(done, k) || marked(todo, k)),
        forall|k: Seq<char>| !marked(todo, k) ==> lookup(promoted(done, todo), k) == lookup(done, k),
    decreases todo.len(),
{
    if todo.len() > 0 {
        let front = todo.drop_last();
        let last = todo.len() - 1;
        let before = promoted(done, front);
        lemma_promoted(done, front);
        assert forall|k: Seq<char>|
            marked(todo, k) <==> (marked(front, k) || (todo[last].0 == k && promoted_text(
                todo[last].1,
            ) is Some)) by {
            if marked(todo, k) {
                let i = choose|i: int|
                    0 <= i < todo.len() && (#[trigger] todo[i]).0 == k && promoted_text(todo[i].1)
                        is Some;
                if i != last {
                    assert(front[i].0 == k);
                }
            }
            if marked(front, k) {
                let i = choose|i: int|
                    0 <= i < front.len() && (#[trigger] front[i]).0 == k && promoted_text(
                        front[i].1,
                    ) is Some;
                assert(todo[i].0 == k);
            }
            if todo[last].0 == k && promoted_text(todo[last].1) is Some {
                assert(marked(todo, k));
            }
        }
        if promoted_text(todo.last().1) is Some {
            lemma_inserted(before, todo.last().0, promoted_text(todo.last().1)->0);
        }
    }
}

/// The text with which a marked entry joins the pool, where `todo` holds its
/// key once.
pub proof fn lemma_promoted_marked(done: Entries, todo: Entries, i: int)
    requires
        distinct_keys(done),
        distinct_keys(todo),
        0 <= i < todo.len(),
        promoted_text(todo[i].1) is Some,
    ensures
        lookup(promoted(done, todo), todo[i].0) == promoted_text(todo[i].1),
    decreases todo.len(),
{
    let front = todo.drop_last();
    let last = todo.len() - 1;
    let before = promoted(done, front);
    lemma_promoted(done, front);
    if i == last {
        lemma_inserted(before, todo[i].0, promoted_text(todo[i].1)->0);
    } else {
        assert(front[i] == todo[i]);
        lemma_promoted_marked(done, front, i);
        assert(todo[i].0 != todo[last].0);
        if promoted_text(todo.last().1) is Some {
            lemma_inserted(before, todo.last().0, promoted_text(todo.last().1)->0);
        }
    }
}

/// Where no pending text bears the completion marker, the pool is `done`.
pub proof fn lemma_promoted_unmarked(done: Entries, todo: Entries)
    requires
        forall|i: int| 0 <= i < todo.len() ==> promoted_text((#[trigger] todo[i]).1) is None,
    ensures
        promoted(done, todo) == done,
    decreases todo.len(),
{
    if todo.len() > 0 {
        let front = todo.drop_last();
        assert forall|i: int| 0 <= i < front.len() implies promoted_text((#[trigger] front[i]).1)
            is None by {
            assert(front[i] == todo[i]);
        }
        lemma_promoted_unmarked(done, front);
        assert(promoted_text(todo[todo.len() - 1].1) is None);
    }
}

/// How the keys are sorted. The keys of all three tables stay distinct. The
/// pool keeps what no key names. `done` holds the named keys of the pool, each
/// with the text of the pool. Every pending key is one of `keys` and has its
/// draft; a key that the pool lacks is pending.
pub proof fn lemma_sorted_keys(carry: Entries, defaults: Entries, keys: Seq<Seq<char>>)
    requires
        distinct_keys(carry),
    ensures
        ({
            let state = sorted_keys(carry, defaults, keys);
            &&& distinct_keys(state.carry)
            &&& distinct_keys(state.done)
            &&& distinct_keys(state.todo)
            &&& forall|k: Seq<char>|
                has_key(state.carry, k) <==> (has_key(carry, k) && !keys.contains(k))
            &&& forall|k: Seq<char>| !keys.contains(k) ==> lookup(state.carry, k) == lookup(carry, k)
            &&& forall|k: Seq<char>|
                has_key(state.done, k) <==> (has_key(carry, k) && keys.contains(k))
            &&& forall|k: Seq<char>| keys.contains(k) ==> lookup(state.done, k) == lookup(carry, k)
            &&& forall|k: Seq<char>| has_key(state.todo, k) ==> keys.contains(k)
            &&& forall|k: Seq<char>|
                has_key(state.todo, k) ==> lookup(state.todo, k) == Some(draft(defaults, k))
            &&& forall|k: Seq<char>| keys.contains(k) && !has_key(carry, k) ==> has_key(state.todo, k)
        }),
    decreases keys.len(),
{
    if keys.len() > 0 {
        let front = keys.drop_last();
        let key = keys.last();
        let before = sorted_keys(carry, defaults, front);
        let state = sorted_keys(carry, defaults, keys);
        lemma_sorted_keys(carry, defaults, front);
        assert forall|k: Seq<char>| keys.contains(k) <==> (k == key || front.contains(k)) by {
            if keys.contains(k) {
                let i = choose|i: int| 0 <= i < keys.len() && keys[i] == k;
                if i != keys.len() - 1 {
                    assert(front[i] == k);
                }
            }
            if front.contains(k) {
                let i = choose|i: int| 0 <= i < front.len() && front[i] == k;
                assert(keys[i] == k);
            }
            assert(keys[keys.len() - 1] == key);
        }
        lemma_swap_removed(before.carry, key);
        match lookup(before.carry, key) {
            Some(text) => {
                lemma_inserted(before.done, key, text);
                assert(!front.contains(key));
                assert(lookup(carry, key) == Some(text));
                assert(state.todo == before.todo);
            },
            None => {
                lemma_inserted(before.todo, key, draft(defaults, key));
                assert(front.contains(key) || !has_key(carry, key));
                assert(state.todo == inserted(before.todo, key, draft(defaults, key)));
                assert forall|k: Seq<char>| has_key(state.todo, k) implies lookup(state.todo, k)
                    == Some(draft(defaults, k)) by {
                    if k != key {
                        assert(has_key(before.todo, k));
                    }
                }
            },
        }
    } else {
        assert(forall|k: Seq<char>| !has_key(Seq::<(Seq<char>, Seq<char>)>::empty(), k));
    }
}

/// Leaving out the named keys keeps the keys distinct, forgets the named keys
/// and keeps every other key with its text.
pub proof fn lemma_unnamed(table: Entries, keys: Seq<Seq<char>>)
    requires
        distinct_keys(table),
    ensures
        distinct_keys(unnamed(table, keys)),
        forall|k: Seq<char>|
            has_key(unnamed(table, keys), k) <==> (has_key(table, k) && !keys.contains(k)),
        forall|k: Seq<char>| !keys.contains(k) ==> lookup(unnamed(table, keys), k) == lookup(table, k),
    decreases table.len(),
{
    if table.len() > 0 {
        let front = table.drop_last();
        let last = table.last();
        let before = unnamed(front, keys);
        lemma_last_pair(table);
        lemma_unnamed(front, keys);
        assert forall|k: Seq<char>| has_key(table, k) <==> (k == last.0 || has_key(front, k)) by {
            if has_key(table, k) {
                let i = position(table, k);
                if i != table.len() - 1 {
                    assert(front[i].0 == k);
                }
            }
            if has_key(front, k) {
                let i = position(front, k);
                assert(table[i].0 == k);
            }
            assert(table[table.len() - 1].0 == last.0);
        }
        if !keys.contains(last.0) {
            assert(!has_key(before, last.0));
            assert(before.push(last) =~= inserted(before, last.0, last.1));
            lemma_inserted(before, last.0, last.1);
        }
    } else {
        assert(forall|k: Seq<char>| !has_key(Seq::<(Seq<char>, Seq<char>)>::empty(), k));
    }
}

/// Where no key of the table is named, nothing is left out.
pub proof fn lemma_unnamed_all(table: Entries, keys: Seq<Seq<char>>)
    requires
        forall|i: int| 0 <= i < table.len() ==> !keys.contains((#[trigger] table[i]).0),
    ensures
        unnamed(table, keys) == table,
    decreases table.len(),
{
    if table.len() > 0 {
        let front = table.drop_last();
        assert forall|i: int| 0 <= i < front.len() implies !keys.contains(
            (#[trigger] front[i]).0,
        ) by {
            assert(front[i] == table[i]);
        }
        lemma_unnamed_all(front, keys);
        assert(!keys.contains(table[table.len() - 1].0));
        assert(front.push(table.last()) =~= table);
    }
}

/// A translation that no message names any more is kept: a key of the pool
/// that is not among `keys` is stale after the pass, with the text of the pool,
/// and is neither completed nor pending.
pub proof fn lemma_orphan_is_removed(
    done: Entries,
    todo: Entries,
    removed: Entries,
    defaults: Entries,
    keys: Seq<Seq<char>>,
    key: Seq<char>,
)
    requires
        distinct_keys(done),
        distinct_keys(removed),
        has_key(done, key) || marked(todo, key),
        !keys.contains(key),
    ensures
        ({
            let outcome = reconciled(done, todo, removed, defaults, keys);
            &&& lookup(outcome.removed, key) == lookup(promoted(done, todo), key)
            &&& has_key(outcome.removed, key)
            &&& !has_key(outcome.done, key)
            &&& !has_key(outcome.todo, key)
        }),
{
    let pool = promoted(done, todo);
    lemma_promoted(done, todo);
    lemma_sorted_keys(pool, defaults, keys);
    let state = sorted_keys(pool, defaults, keys);
    lemma_unnamed(removed, keys);
    lemma_inserted_all(unnamed(removed, keys), state.carry);
}

/// A key of prior `done` that is not among the current keys is stale after the
/// pass and neither completed nor pending; where no pending entry of that key
/// bears the completion marker, it keeps its text.
pub proof fn lemma_orphan_detection(
    done: Entries,
    todo: Entries,
    removed: Entries,
    defaults: Entries,
    keys: Seq<Seq<char>>,
    key: Seq<char>,
)
    requires
        distinct_keys(done),
        distinct_keys(removed),
        has_key(done, key),
        !keys.contains(key),
    ensures
        ({
            let outcome = reconciled(done, todo, removed, defaults, keys);
            &&& has_key(outcome.removed, key)
            &&& !marked(todo, key) ==> lookup(outcome.removed, key) == lookup(done, key)
            &&& !has_key(outcome.done, key)
            &&& !has_key(outcome.todo, key)
        }),
{
    lemma_promoted(done, todo);
    lemma_orphan_is_removed(done, todo, removed, defaults, keys, key);
}

/// A pending entry that bears the completion marker, and whose key a message
/// names, is completed after the pass with its promoted text, and not pending.
pub proof fn lemma_promotion(
    done: Entries,
    todo: Entries,
    removed: Entries,
    defaults: Entries,
    keys: Seq<Seq<char>>,
    i: int,
)
    requires
        distinct_keys(done),
        distinct_keys(todo),
        keys.no_duplicates(),
        0 <= i < todo.len(),
        promoted_text(todo[i].1) is Some,
        keys.contains(todo[i].0),
    ensures
        ({
            let outcome = reconciled(done, todo, removed, defaults, keys);
            &&& lookup(outcome.done, todo[i].0) == promoted_text(todo[i].1)
            &&& !has_key(outcome.todo, todo[i].0)
        }),
{
    let pool = promoted(done, todo);
    lemma_promoted(done, todo);
    lemma_promoted_marked(done, todo, i);
    lemma_sorted_keys(pool, defaults, keys);
    lemma_sorted_distinct(pool, defaults, keys);
}

/// A key that a message names and that has no earlier translation becomes
/// pending with its draft: the completed text of the default locale where
/// there is one.
pub proof fn lemma_fallback_bootstrap(
    done: Entries,
    todo: Entries,
    removed: Entries,
    defaults: Entries,
    keys: Seq<Seq<char>>,
    key: Seq<char>,
    text: Seq<char>,
)
    requires
        distinct_keys(done),
        keys.contains(key),
        !has_key(done, key),
        !marked(todo, key),
        lookup(defaults, key) == Some(text),
    ensures
        lookup(reconciled(done, todo, removed, defaults, keys).todo, key) == Some(text),
        !has_key(reconciled(done, todo, removed, defaults, keys).done, key),
{
    lemma_promoted(done, todo);
    lemma_sorted_keys(promoted(done, todo), defaults, keys);
}

/// A key that a message names and that has no translation anywhere becomes
/// pending with the last dot-separated segment of the key.
pub proof fn lemma_placeholder_synthesis(
    done: Entries,
    todo: Entries,
    removed: Entries,
    defaults: Entries,
    keys: Seq<Seq<char>>,
    key: Seq<char>,
)
    requires
        distinct_keys(done),
        keys.contains(key),
        !has_key(done, key),
        !marked(todo, key),
        !has_key(defaults, key),
    ensures
        lookup(reconciled(done, todo, removed, defaults, keys).todo, key) == Some(
            final_segment(key, '.'),
        ),
        !has_key(reconciled(done, todo, removed, defaults, keys).done, key),
{
    lemma_promoted(done, todo);
    lemma_sorted_keys(promoted(done, todo), defaults, keys);
}

/// The named keys of the pool, in the order of `keys`, each with the text of
/// the pool.
pub open spec fn claimed(pool: Entries, keys: Seq<Seq<char>>) -> Entries
    decreases keys.len(),
{
    if keys.len() == 0 {
        Seq::empty()
    } else {
        match lookup(pool, keys.last()) {
            Some(text) => claimed(pool, keys.drop_last()).push((keys.last(), text)),
            None => claimed(pool, keys.drop_last()),
        }
    }
}

/// The keys that the pool lacks, in the order of `keys`, each with its draft.
pub open spec fn drafted(pool: Entries, defaults: Entries, keys: Seq<Seq<char>>) -> Entries
    decreases keys.len(),
{
    if keys.len() == 0 {
        Seq::empty()
    } else {
        match lookup(pool, keys.last()) {
            Some(_) => drafted(pool, defaults, keys.drop_last()),
            None => drafted(pool, defaults, keys.drop_last()).push(
                (keys.last(), draft(defaults, keys.last())),
            ),
        }
    }
}

/// With each key named once, the pass sorts the keys in their own order:
/// `done` is the named part of the pool, `todo` the drafts of the other keys.
pub proof fn lemma_sorted_distinct(pool: Entries, defaults: Entries, keys: Seq<Seq<char>>)
    requires
        distinct_keys(pool),
        keys.no_duplicates(),
    ensures
        sorted_keys(pool, defaults, keys).done == claimed(pool, keys),
        sorted_keys(pool, defaults, keys).todo == drafted(pool, defaults, keys),
        forall|k: Seq<char>|
            has_key(sorted_keys(pool, defaults, keys).todo, k) <==> (keys.contains(k) && !has_key(
                pool,
                k,
            )),
    decreases keys.len(),
{
    lemma_sorted_keys(pool, defaults, keys);
    if keys.len() > 0 {
        let front = keys.drop_last();
        let key = keys.last();
        let before = sorted_keys(pool, defaults, front);
        lemma_sorted_distinct(pool, defaults, front);
        lemma_sorted_keys(pool, defaults, front);
        assert(!front.contains(key)) by {
            if front.contains(key) {
                let i = choose|i: int| 0 <= i < front.len() && front[i] == key;
                assert(keys[i] == keys[keys.len() - 1]);
            }
        }
        assert(lookup(before.carry, key) == lookup(pool, key));
        assert(!has_key(before.done, key));
        assert(!has_key(before.todo, key));
        assert forall|k: Seq<char>| keys.contains(k) <==> (k == key || front.contains(k)) by {
            if keys.contains(k) {
                let i = choose|i: int| 0 <= i < keys.len() && keys[i] == k;
                if i != keys.len() - 1 {
                    assert(front[i] == k);
                }
            }
            if front.contains(k) {
                let i = choose|i: int| 0 <= i < front.len() && front[i] == k;
                assert(keys[i] == k);
            }
            assert(keys[keys.len() - 1] == key);
        }
        match lookup(pool, key) {
            Some(text) => {
                lemma_inserted(before.done, key, text);
            },
            None => {
                lemma_inserted(before.todo, key, draft(defaults, key));
            },
        }
    }
}

/// Two pools that agree on every key of `keys` are claimed and drafted alike.
pub proof fn lemma_claimed_alike(a: Entries, b: Entries, defaults: Entries, keys: Seq<Seq<char>>)
    requires
        forall|i: int| 0 <= i < keys.len() ==> lookup(a, #[trigger] keys[i]) == lookup(b, keys[i]),
    ensures
        claimed(a, keys) == claimed(b, keys),
        drafted(a, defaults, keys) == drafted(b, defaults, keys),
    decreases keys.len(),
{
    if keys.len() > 0 {
        let front = keys.drop_last();
        assert forall|i: int| 0 <= i < front.len() implies lookup(a, #[trigger] front[i]) == lookup(
            b,
            front[i],
        ) by {
            assert(front[i] == keys[i]);
        }
        lemma_claimed_alike(a, b, defaults, front);
        assert(lookup(a, keys[keys.len() - 1]) == lookup(b, keys[keys.len() - 1]));
    }
}

/// A second pass over the same keys changes nothing: where each key is named
/// once, and no pending text of the first outcome bears the completion marker,
/// reconciling the outcome again gives the outcome.
pub proof fn lemma_reconcile_idempotent(
    done: Entries,
    todo: Entries,
    removed: Entries,
    defaults: Entries,
    keys: Seq<Seq<char>>,
)
    requires
        distinct_keys(done),
        distinct_keys(removed),
        keys.no_duplicates(),
        ({
            let first = reconciled(done, todo, removed, defaults, keys);
            forall|i: int|
                0 <= i < first.todo.len() ==> promoted_text((#[trigger] first.todo[i]).1) is None
        }),
    ensures
        ({
            let first = reconciled(done, todo, removed, defaults, keys);
            reconciled(first.done, first.todo, first.removed, defaults, keys) == first
        }),
{
    let pool = promoted(done, todo);
    let state = sorted_keys(pool, defaults, keys);
    let first = reconciled(done, todo, removed, defaults, keys);
    lemma_promoted(done, todo);
    lemma_sorted_keys(pool, defaults, keys);
    lemma_sorted_distinct(pool, defaults, keys);

    lemma_promoted_unmarked(first.done, first.todo);
    let again = sorted_keys(first.done, defaults, keys);
    lemma_sorted_keys(first.done, defaults, keys);
    lemma_sorted_distinct(first.done, defaults, keys);
    assert forall|i: int| 0 <= i < keys.len() implies lookup(first.done, #[trigger] keys[i])
        == lookup(pool, keys[i]) by {
        assert(keys.contains(keys[i]));
    }
    lemma_claimed_alike(first.done, pool, defaults, keys);
    assert forall|k: Seq<char>| !has_key(again.carry, k) by {
        if has_key(again.carry, k) {
            assert(has_key(first.done, k) && !keys.contains(k));
            assert(has_key(state.done, k));
        }
    }
    lemma_no_keys(again.carry);
    lemma_unnamed(removed, keys);
    lemma_inserted_all(unnamed(removed, keys), state.carry);
    assert forall|i: int| 0 <= i < first.removed.len() implies !keys.contains(
        (#[trigger] first.removed[i]).0,
    ) by {
        assert(has_key(first.removed, first.removed[i].0));
    }
    lemma_unnamed_all(first.removed, keys);
    assert(inserted_all(first.removed, Seq::<(Seq<char>, Seq<char>)>::empty()) == first.removed);
}

/// After a pass no key is in two of the three tables, where each key is named
/// once.
pub proof fn lemma_buckets_disjoint(
    done: Entries,
    todo: Entries,
    removed: Entries,
    defaults: Entries,
    keys: Seq<Seq<char>>,
    key: Seq<char>,
)
    requires
        distinct_keys(done),
        distinct_keys(removed),
        keys.no_duplicates(),
    ensures
        ({
            let outcome = reconciled(done, todo, removed, defaults, keys);
            &&& !(has_key(outcome.done, key) && has_key(outcome.todo, key))
            &&& !(has_key(outcome.done, key) && has_key(outcome.removed, key))
            &&& !(has_key(outcome.todo, key) && has_key(outcome.removed, key))
        }),
{
    let pool = promoted(done, todo);
    lemma_promoted(done, todo);
    lemma_sorted_keys(pool, defaults, keys);
    lemma_sorted_distinct(pool, defaults, keys);
    let state = sorted_keys(pool, defaults, keys);
    let outcome = reconciled(done, todo, removed, defaults, keys);
    lemma_unnamed(removed, keys);
    lemma_inserted_all(unnamed(removed, keys), state.carry);
    if has_key(outcome.removed, key) {
        assert(has_key(unnamed(removed, keys), key) || has_key(state.carry, key));
        assert(!keys.contains(key));
    }
    if has_key(outcome.done, key) {
        assert(has_key(state.done, key));
        assert(has_key(pool, key) && keys.contains(key));
    }
    if has_key(outcome.todo, key) {
        assert(has_key(state.todo, key));
        assert(keys.contains(key) && !has_key(pool, key));
    }
}

/// No pending text bears the completion marker.
pub open spec fn unmarked(todo: Entries) -> bool {
    forall|i: int| 0 <= i < todo.len() ==> promoted_text((#[trigger] todo[i]).1) is None
}

/// The three tables of `locale`.
pub open spec fn locale_tables(buckets: Buckets, locale: Seq<char>) -> Reconciled {
    Reconciled {
        done: table_of(buckets.done, locale),
        todo: table_of(buckets.todo, locale),
        removed: table_of(buckets.removed, locale),
    }
}

/// A pass over the three tables of one locale.
pub open spec fn pass(tables: Reconciled, defaults: Entries, keys: Seq<Seq<char>>) -> Reconciled {
    reconciled(tables.done, tables.todo, tables.removed, defaults, keys)
}

/// No bucket holds a locale twice.
pub open spec fn distinct_locales(buckets: Buckets) -> bool {
    distinct_keys(buckets.done) && distinct_keys(buckets.todo) && distinct_keys(buckets.removed)
}

/// Every bucket holds a table for `locale`.
pub open spec fn present(buckets: Buckets, locale: Seq<char>) -> bool {
    has_key(buckets.done, locale) && has_key(buckets.todo, locale) && has_key(
        buckets.removed,
        locale,
    )
}

/// Reconciling one locale gives that locale the outcome of a pass over its
/// tables and leaves the tables of every other locale as they are.
pub proof fn lemma_reconciled_locale(
    buckets: Buckets,
    locale: Seq<char>,
    defaults: Entries,
    keys: Seq<Seq<char>>,
)
    requires
        distinct_locales(buckets),
    ensures
        ({
            let after = reconciled_locale(buckets, locale, defaults, keys);
            &&& distinct_locales(after)
            &&& present(after, locale)
            &&& locale_tables(after, locale) == pass(locale_tables(buckets, locale), defaults, keys)
            &&& forall|other: Seq<char>|
                other != locale ==> #[trigger] locale_tables(after, other) == locale_tables(
                    buckets,
                    other,
                )
            &&& forall|other: Seq<char>| #[trigger] present(buckets, other) ==> present(after, other)
        }),
{
    let outcome = pass(locale_tables(buckets, locale), defaults, keys);
    lemma_inserted(buckets.done, locale, outcome.done);
    lemma_inserted(buckets.todo, locale, outcome.todo);
    lemma_inserted(buckets.removed, locale, outcome.removed);
}

/// The tables of one locale are well formed: neither the completed nor the
/// stale table holds a key twice.
pub open spec fn valid(tables: Reconciled) -> bool {
    distinct_keys(tables.done) && distinct_keys(tables.removed)
}

/// The tables are the outcome of a pass over well-formed tables.
pub open spec fn is_outcome(tables: Reconciled, defaults: Entries, keys: Seq<Seq<char>>) -> bool {
    exists|earlier: Reconciled| valid(earlier) && #[trigger] pass(earlier, defaults, keys) == tables
}

/// A pass over well-formed tables gives well-formed tables.
pub proof fn lemma_pass_valid(tables: Reconciled, defaults: Entries, keys: Seq<Seq<char>>)
    requires
        valid(tables),
    ensures
        valid(pass(tables, defaults, keys)),
{
    let pool = promoted(tables.done, tables.todo);
    lemma_promoted(tables.done, tables.todo);
    lemma_sorted_keys(pool, defaults, keys);
    lemma_unnamed(tables.removed, keys);
    lemma_inserted_all(unnamed(tables.removed, keys), sorted_keys(pool, defaults, keys).carry);
}

/// The outcome of a pass, where none of its pending texts bears the
/// completion marker, is left as it is by another pass.
pub proof fn lemma_outcome_settled(tables: Reconciled, defaults: Entries, keys: Seq<Seq<char>>)
    requires
        is_outcome(tables, defaults, keys),
        keys.no_duplicates(),
        unmarked(tables.todo),
    ensures
        pass(tables, defaults, keys) == tables,
{
    let earlier = choose|earlier: Reconciled|
        valid(earlier) && #[trigger] pass(earlier, defaults, keys) == tables;
    lemma_reconcile_idempotent(earlier.done, earlier.todo, earlier.removed, defaults, keys);
}

/// Reconciling the other locales gives each of them the outcome of a pass and
/// leaves the rest as it is.
pub proof fn lemma_reconciled_others(
    buckets: Buckets,
    default_locale: Seq<char>,
    defaults: Entries,
    locales: Seq<Seq<char>>,
    keys: Seq<Seq<char>>,
)
    requires
        distinct_locales(buckets),
        forall|locale: Seq<char>| valid(#[trigger] locale_tables(buckets, locale)),
    ensures
        ({
            let after = reconciled_others(buckets, default_locale, defaults, locales, keys);
            &&& distinct_locales(after)
            &&& forall|locale: Seq<char>| valid(#[trigger] locale_tables(after, locale))
            &&& forall|locale: Seq<char>|
                locale == default_locale || !locales.contains(locale) ==> #[trigger] locale_tables(
                    after,
                    locale,
                ) == locale_tables(buckets, locale)
            &&& forall|locale: Seq<char>|
                locale != default_locale && locales.contains(locale) ==> is_outcome(
                    #[trigger] locale_tables(after, locale),
                    defaults,
                    keys,
                )
            &&& forall|locale: Seq<char>|
                locale != default_locale && locales.contains(locale) ==> #[trigger] present(
                    after,
                    locale,
                )
            &&& forall|locale: Seq<char>| #[trigger]
                present(buckets, locale) ==> present(after, locale)
        }),
    decreases locales.len(),
{
    if locales.len() > 0 {
        let front = locales.drop_last();
        let last = locales.last();
        let before = reconciled_others(buckets, default_locale, defaults, front, keys);
        let after = reconciled_others(buckets, default_locale, defaults, locales, keys);
        lemma_reconciled_others(buckets, default_locale, defaults, front, keys);
        assert forall|locale: Seq<char>|
            locales.contains(locale) <==> (locale == last || front.contains(locale)) by {
            if locales.contains(locale) {
                let i = choose|i: int| 0 <= i < locales.len() && locales[i] == locale;
                if i != locales.len() - 1 {
                    assert(front[i] == locale);
                }
            }
            if front.contains(locale) {
                let i = choose|i: int| 0 <= i < front.len() && front[i] == locale;
                assert(locales[i] == locale);
            }
            assert(locales[locales.len() - 1] == last);
        }
        if last != default_locale {
            lemma_reconciled_locale(before, last, defaults, keys);
            let earlier = locale_tables(before, last);
            assert(valid(earlier));
            lemma_pass_valid(earlier, defaults, keys);
            assert(locale_tables(after, last) == pass(earlier, defaults, keys));
            assert(is_outcome(locale_tables(after, last), defaults, keys));
            assert forall|locale: Seq<char>| valid(#[trigger] locale_tables(after, locale)) by {
                if locale != last {
                    assert(locale_tables(after, locale) == locale_tables(before, locale));
                }
            }
            assert forall|locale: Seq<char>|
                locale == default_locale || !locales.contains(locale) implies #[trigger] locale_tables(
                after,
                locale,
            ) == locale_tables(buckets, locale) by {
                assert(locale != last);
                assert(locale_tables(after, locale) == locale_tables(before, locale));
            }
            assert forall|locale: Seq<char>|
                locale != default_locale && locales.contains(locale) implies is_outcome(
                #[trigger] locale_tables(after, locale),
                defaults,
                keys,
            ) by {
                if locale != last {
                    assert(locale_tables(after, locale) == locale_tables(before, locale));
                }
            }
            assert forall|locale: Seq<char>|
                locale != default_locale && locales.contains(locale) implies #[trigger] present(
                after,
                locale,
            ) by {
                if locale != last {
                    assert(present(before, locale));
                }
            }
            assert forall|locale: Seq<char>| #[trigger] present(buckets, locale) implies present(
                after,
                locale,
            ) by {
                assert(present(before, locale));
            }
        }
    }
}

/// Reconciling a locale whose tables a pass leaves as they are changes
/// nothing.
pub proof fn lemma_fixed_locale(
    buckets: Buckets,
    locale: Seq<char>,
    defaults: Entries,
    keys: Seq<Seq<char>>,
)
    requires
        present(buckets, locale),
        pass(locale_tables(buckets, locale), defaults, keys) == locale_tables(buckets, locale),
    ensures
        reconciled_locale(buckets, locale, defaults, keys) == buckets,
{
    let after = reconciled_locale(buckets, locale, defaults, keys);
    assert(after.done =~= buckets.done);
    assert(after.todo =~= buckets.todo);
    assert(after.removed =~= buckets.removed);
}

/// Reconciling locales whose tables a pass leaves as they are changes nothing.
pub proof fn lemma_fixed_others(
    buckets: Buckets,
    default_locale: Seq<char>,
    defaults: Entries,
    locales: Seq<Seq<char>>,
    keys: Seq<Seq<char>>,
)
    requires
        forall|i: int|
            0 <= i < locales.len() && locales[i] != default_locale ==> present(
                buckets,
                #[trigger] locales[i],
            ) && pass(locale_tables(buckets, locales[i]), defaults, keys) == locale_tables(
                buckets,
                locales[i],
            ),
    ensures
        reconciled_others(buckets, default_locale, defaults, locales, keys) == buckets,
    decreases locales.len(),
{
    if locales.len() > 0 {
        let front = locales.drop_last();
        assert forall|i: int| 0 <= i < front.len() && front[i] != default_locale implies present(
            buckets,
            #[trigger] front[i],
        ) && pass(locale_tables(buckets, front[i]), defaults, keys) == locale_tables(
            buckets,
            front[i],
        ) by {
            assert(front[i] == locales[i]);
        }
        lemma_fixed_others(buckets, default_locale, defaults, front, keys);
        let last = locales[locales.len() - 1];
        if last != default_locale {
            lemma_fixed_locale(buckets, last, defaults, keys);
        }
    }
}

/// A second run over the same messages changes nothing. This holds where no
/// bucket holds a locale twice, no table of completed or stale texts holds a
/// key twice, the messages name each key once, and no pending text of the
/// first run's outcome bears the completion marker.
pub proof fn lemma_run_idempotent(
    buckets: Buckets,
    default_locale: Seq<char>,
    locales: Seq<Seq<char>>,
    keys: Seq<Seq<char>>,
)
    requires
        distinct_locales(buckets),
        forall|locale: Seq<char>| valid(#[trigger] locale_tables(buckets, locale)),
        keys.no_duplicates(),
        ({
            let first = reconciled_all(buckets, default_locale, locales, keys);
            &&& unmarked(table_of(first.todo, default_locale))
            &&& forall|i: int|
                0 <= i < locales.len() ==> unmarked(table_of(first.todo, #[trigger] locales[i]))
        }),
    ensures
        ({
            let first = reconciled_all(buckets, default_locale, locales, keys);
            reconciled_all(first, default_locale, locales, keys) == first
        }),
{
    let nothing = Seq::<(Seq<char>, Seq<char>)>::empty();
    let start = reconciled_locale(buckets, default_locale, nothing, keys);
    let defaults = table_of(start.done, default_locale);
    let first = reconciled_others(start, default_locale, defaults, locales, keys);
    assert(first == reconciled_all(buckets, default_locale, locales, keys));
    lemma_reconciled_locale(buckets, default_locale, nothing, keys);
    let own = locale_tables(buckets, default_locale);
    assert(valid(own));
    lemma_pass_valid(own, nothing, keys);
    assert forall|locale: Seq<char>| valid(#[trigger] locale_tables(start, locale)) by {
        if locale != default_locale {
            assert(locale_tables(start, locale) == locale_tables(buckets, locale));
            assert(valid(locale_tables(buckets, locale)));
        }
    }
    lemma_reconciled_others(start, default_locale, defaults, locales, keys);

    // The default locale: its tables are the outcome of a pass, and stay so.
    assert(locale_tables(first, default_locale) == locale_tables(start, default_locale));
    assert(locale_tables(start, default_locale) == pass(own, nothing, keys));
    assert(is_outcome(locale_tables(first, default_locale), nothing, keys));
    assert(present(first, default_locale));
    lemma_outcome_settled(locale_tables(first, default_locale), nothing, keys);
    lemma_fixed_locale(first, default_locale, nothing, keys);
    assert(table_of(first.done, default_locale) == defaults);

    // Every other locale likewise, with the drafts of the default locale.
    assert forall|i: int| 0 <= i < locales.len() && locales[i] != default_locale implies present(
        first,
        #[trigger] locales[i],
    ) && pass(locale_tables(first, locales[i]), defaults, keys) == locale_tables(
        first,
        locales[i],
    ) by {
        let locale = locales[i];
        assert(locales.contains(locale));
        assert(is_outcome(locale_tables(first, locale), defaults, keys));
        assert(unmarked(table_of(first.todo, locales[i])));
        lemma_outcome_settled(locale_tables(first, locale), defaults, keys);
    }
    lemma_fixed_others(first, default_locale, defaults, locales, keys);
}

/// No locale occurs twice, and no table holds a key twice.
pub open spec fn distinct_tables(data: Tables) -> bool {
    &&& distinct_keys(data)
    &&& forall|i: int| 0 <= i < data.len() ==> distinct_keys((#[trigger] data[i]).1)
}

/// Turning one row, whose key no table of `out` holds yet, puts each of its
/// texts in place and leaves every other text where it was.
pub proof fn lemma_with_row(out: Tables, outer: Seq<char>, row: Entries)
    requires
        distinct_tables(out),
        distinct_keys(row),
        forall|inner: Seq<char>| !has_key(#[trigger] table_of(out, inner), outer),
    ensures
        distinct_tables(with_row(out, outer, row)),
        forall|inner: Seq<char>, key: Seq<char>|
            #[trigger] lookup(table_of(with_row(out, outer, row), inner), key) == if key == outer {
                lookup(row, inner)
            } else {
                lookup(table_of(out, inner), key)
            },
    decreases row.len(),
{
    let after = with_row(out, outer, row);
    if row.len() > 0 {
        let front = row.drop_last();
        let (last_key, text) = row.last();
        let before = with_row(out, outer, front);
        lemma_last_pair(row);
        lemma_with_row(out, outer, front);
        let column = table_of(before, last_key);
        lemma_tables_distinct(before, last_key);
        lemma_inserted(column, outer, text);
        lemma_inserted(before, last_key, inserted(column, outer, text));
        assert(after == inserted(before, last_key, inserted(column, outer, text)));
        assert forall|i: int| 0 <= i < after.len() implies distinct_keys(
            (#[trigger] after[i]).1,
        ) by {
            if after[i].0 == last_key {
                lemma_position(after, i);
            } else {
                lemma_position(after, i);
                assert(lookup(before, after[i].0) == Some(after[i].1));
                lemma_tables_distinct(before, after[i].0);
            }
        }
        assert forall|inner: Seq<char>, key: Seq<char>|
            #[trigger] lookup(table_of(after, inner), key) == if key == outer {
                lookup(row, inner)
            } else {
                lookup(table_of(out, inner), key)
            } by {
            if inner == last_key {
                assert(table_of(after, inner) == inserted(column, outer, text));
                assert(lookup(table_of(before, inner), key) == if key == outer {
                    lookup(front, inner)
                } else {
                    lookup(table_of(out, inner), key)
                });
            } else {
                assert(table_of(after, inner) == table_of(before, inner));
                assert(lookup(table_of(before, inner), key) == if key == outer {
                    lookup(front, inner)
                } else {
                    lookup(table_of(out, inner), key)
                });
            }
        }
    } else {
        assert forall|inner: Seq<char>, key: Seq<char>|
            #[trigger] lookup(table_of(after, inner), key) == if key == outer {
                lookup(row, inner)
            } else {
                lookup(table_of(out, inner), key)
            } by {
            assert(!has_key(table_of(out, inner), outer));
        }
    }
}

/// Every table of well-formed tables has distinct keys.
pub proof fn lemma_tables_distinct(data: Tables, locale: Seq<char>)
    requires
        distinct_tables(data),
    ensures
        distinct_keys(table_of(data, locale)),
{
    if has_key(data, locale) {
        let i = position(data, locale);
        assert(distinct_keys(data[i].1));
    }
}

/// Transposing swaps the two keys of every text: what `data` holds under
/// `outer`, then `inner`, the transposed tables hold under `inner`, then
/// `outer`, and they hold nothing else.
pub proof fn lemma_transposed(data: Tables)
    requires
        distinct_tables(data),
    ensures
        distinct_tables(transposed(data)),
        forall|inner: Seq<char>, outer: Seq<char>|
            #[trigger] lookup(table_of(transposed(data), inner), outer) == lookup(
                table_of(data, outer),
                inner,
            ),
    decreases data.len(),
{
    let turned = transposed(data);
    if data.len() > 0 {
        let front = data.drop_last();
        let (last_key, row) = data.last();
        lemma_last_pair(data);
        assert forall|i: int| 0 <= i < front.len() implies distinct_keys(
            (#[trigger] front[i]).1,
        ) by {
            assert(front[i] == data[i]);
        }
        lemma_transposed(front);
        let before = transposed(front);
        assert(distinct_keys(row)) by {
            assert(data[data.len() - 1].1 == row);
        }
        assert forall|inner: Seq<char>| !has_key(#[trigger] table_of(before, inner), last_key) by {
            assert(lookup(table_of(before, inner), last_key) == lookup(
                table_of(front, last_key),
                inner,
            ));
            assert(table_of(front, last_key) =~= Seq::<(Seq<char>, Seq<char>)>::empty());
            assert(!has_key(table_of(front, last_key), inner));
        }
        lemma_with_row(before, last_key, row);
        assert forall|inner: Seq<char>, outer: Seq<char>|
            #[trigger] lookup(table_of(turned, inner), outer) == lookup(
                table_of(data, outer),
                inner,
            ) by {
            if outer == last_key {
                assert(table_of(data, outer) == row);
            } else {
                assert(table_of(data, outer) == table_of(front, outer));
                assert(lookup(table_of(before, inner), outer) == lookup(
                    table_of(front, outer),
                    inner,
                ));
            }
        }
    } else {
        assert forall|inner: Seq<char>, outer: Seq<char>|
            #[trigger] lookup(table_of(turned, inner), outer) == lookup(
                table_of(data, outer),
                inner,
            ) by {
            assert(!has_key(turned, inner));
            assert(!has_key(data, outer));
            assert(!has_key(table_of(turned, inner), outer));
            assert(!has_key(table_of(data, outer), inner));
        }
    }
}

} // verus!
