//! Translation: the message identifier is the English text itself, so a
//! missing entry can never render as anything else.

use crate::text::{chars_of, same_str, same_text, string_of};
#[allow(unused_imports)]
use crate::text::{text_of, texts};
use std::collections::HashMap;
use vstd::prelude::*;

verus! {

/// What `serde_json::from_str` makes of a text, read as an object whose values
/// are all strings.
pub uninterp spec fn json_text_map(s: Seq<char>) -> Option<Map<Seq<char>, Seq<char>>>;

/// What `serde_json::from_slice` makes of bytes, read as an object whose
/// values are all strings.
pub uninterp spec fn json_byte_map(b: Seq<u8>) -> Option<Map<Seq<char>, Seq<char>>>;

/// `serde_json::from_str` into a map from strings to strings: the entries, in
/// no particular order and each key once, or nothing where the text is not
/// such an object. Which it is, is a function of the text alone.
#[verifier::external_body]
fn entries_of_text(s: &str) -> (r: Option<Vec<(String, String)>>)
    ensures
        match r {
            Some(v) => json_text_map(s@) == Some(entry_map(v@)),
            None => json_text_map(s@) is None,
        },
{
    serde_json::from_str::<HashMap<String, String>>(s).ok().map(|m| m.into_iter().collect())
}

/// `serde_json::from_slice` into a map from strings to strings, likewise.
#[verifier::external_body]
fn entries_of_bytes(b: &[u8]) -> (r: Option<Vec<(String, String)>>)
    ensures
        match r {
            Some(v) => json_byte_map(b@) == Some(entry_map(v@)),
            None => json_byte_map(b@) is None,
        },
{
    serde_json::from_slice::<HashMap<String, String>>(b).ok().map(|m| m.into_iter().collect())
}

/// The map that a list of entries stands for; the last entry for a key counts.
pub open spec fn entry_map(v: Seq<(String, String)>) -> Map<Seq<char>, Seq<char>>
    decreases v.len(),
{
    if v.len() == 0 {
        Map::empty()
    } else {
        entry_map(v.drop_last()).insert(v.last().0@, v.last().1@)
    }
}

/// The active translations. English has none.
pub struct Catalogue {
    entries: Vec<(String, String)>,
}

impl View for Catalogue {
    type V = Map<Seq<char>, Seq<char>>;

    closed spec fn view(&self) -> Map<Seq<char>, Seq<char>> {
        entry_map(self.entries@)
    }
}

/// The text that stands for `msgid` under the given translations.
pub open spec fn translation(map: Map<Seq<char>, Seq<char>>, msgid: Seq<char>) -> Seq<char> {
    if map.dom().contains(msgid) {
        map[msgid]
    } else {
        msgid
    }
}

/// Translates one message: English in, the active language out.
pub fn tr(catalogue: &Catalogue, msgid: &str) -> (r: String)
    ensures
        r@ == translation(catalogue@, msgid@),
{
    let ghost all = catalogue.entries@;
    let mut n: usize = catalogue.entries.len();
    proof {
        assert(all.take(n as int) =~= all);
    }
    let key = chars_of(msgid);
    while n > 0
        invariant
            n <= all.len(),
            all == catalogue.entries@,
            key@ == msgid@,
            translation(catalogue@, msgid@) == translation(entry_map(all.take(n as int)), msgid@),
        decreases n,
    {
        proof {
            assert(all.take(n as int).drop_last() =~= all.take(n - 1));
            assert(all.take(n as int).last() == all[n - 1]);
        }
        let entry = &catalogue.entries[n - 1];
        let this = chars_of(entry.0.as_str());
        if same_text(this.as_slice(), key.as_slice()) {
            return entry.1.clone();
        }
        n = n - 1;
    }
    string_of(key.as_slice())
}

proof fn lemma_entry_map_concat(a: Seq<(String, String)>, b: Seq<(String, String)>)
    ensures
        entry_map(a + b) == entry_map(a).union_prefer_right(entry_map(b)),
    decreases b.len(),
{
    if b.len() == 0 {
        assert(a + b =~= a);
        assert(entry_map(a).union_prefer_right(entry_map(b)) =~= entry_map(a));
    } else {
        lemma_entry_map_concat(a, b.drop_last());
        assert((a + b).drop_last() =~= a + b.drop_last());
        assert((a + b).last() == b.last());
        let left = entry_map(a);
        let right = entry_map(b.drop_last());
        assert(left.union_prefer_right(right).insert(b.last().0@, b.last().1@)
            =~= left.union_prefer_right(right.insert(b.last().0@, b.last().1@)));
    }
}

/// The translations that hold when `builtin` ships with the program and `disk`
/// was added by the user: an entry on disk wins over a built-in one.
pub open spec fn merged(
    builtin: Option<Map<Seq<char>, Seq<char>>>,
    disk: Option<Map<Seq<char>, Seq<char>>>,
) -> Map<Seq<char>, Seq<char>> {
    let base = match builtin {
        Some(m) => m,
        None => Map::empty(),
    };
    match disk {
        Some(m) => base.union_prefer_right(m),
        None => base,
    }
}

/// The entries as a map, where there are any.
pub open spec fn entries_view(v: Option<Vec<(String, String)>>) -> Option<
    Map<Seq<char>, Seq<char>>,
> {
    match v {
        Some(e) => Some(entry_map(e@)),
        None => None,
    }
}

/// Puts a catalogue together from built-in entries and entries on disk.
pub fn merge_catalogue(
    builtin: Option<Vec<(String, String)>>,
    disk: Option<Vec<(String, String)>>,
) -> (r: Catalogue)
    ensures
        r@ == merged(entries_view(builtin), entries_view(disk)),
{
    let mut entries: Vec<(String, String)> = match builtin {
        Some(v) => v,
        None => Vec::new(),
    };
    let ghost base = entries@;
    if let Some(more) = disk {
        let mut rest = more;
        entries.append(&mut rest);
        proof {
            lemma_entry_map_concat(base, more@);
        }
    }
    Catalogue { entries }
}

/// Whether a language is the English base, under its tag or its old name.
pub open spec fn is_english(tag: Seq<char>) -> bool {
    tag == "en"@ || tag == "English"@
}

/// Switches to a language: `builtin` is the catalogue that ships with the
/// program, `disk` the one that the user added, as far as there are such.
/// English clears the catalogue, and a broken catalogue counts for nothing.
pub fn set_locale(tag: &str, builtin: Option<&str>, disk: Option<&[u8]>) -> (r: Catalogue)
    ensures
        r@ == (if is_english(tag@) {
            Map::<Seq<char>, Seq<char>>::empty()
        } else {
            merged(
                match builtin {
                    Some(s) => json_text_map(s@),
                    None => None,
                },
                match disk {
                    Some(b) => json_byte_map(b@),
                    None => None,
                },
            )
        }),
{
    if same_str(tag, "en") || same_str(tag, "English") {
        return merge_catalogue(None, None);
    }
    let base = match builtin {
        Some(s) => entries_of_text(s),
        None => None,
    };
    let more = match disk {
        Some(b) => entries_of_bytes(b),
        None => None,
    };
    merge_catalogue(base, more)
}

/// A message that the catalogue lacks reads as the English text itself.
pub proof fn law_missing_message_is_itself(map: Map<Seq<char>, Seq<char>>, msgid: Seq<char>)
    requires
        !map.dom().contains(msgid),
    ensures
        translation(map, msgid) == msgid,
{
}

/// What the user put on disk wins, and everything else is as it was shipped.
pub proof fn law_disk_wins(
    builtin: Option<Map<Seq<char>, Seq<char>>>,
    disk: Map<Seq<char>, Seq<char>>,
    msgid: Seq<char>,
)
    ensures
        translation(merged(builtin, Some(disk)), msgid) == (if disk.dom().contains(msgid) {
            disk[msgid]
        } else {
            translation(merged(builtin, None), msgid)
        }),
{
}

/// The languages that ship with the program, by tag.
pub open spec fn builtin_tags() -> Seq<Seq<char>> {
    seq![
        "ar"@,
        "de"@,
        "en"@,
        "es"@,
        "fa"@,
        "fr"@,
        "he"@,
        "ja"@,
        "ko"@,
        "nl"@,
        "pt-BR"@,
        "ru"@,
        "tr"@,
        "zh"@,
        "zh-Hant"@,
    ]
}

/// The names of those languages, each in itself.
pub open spec fn builtin_names() -> Seq<Seq<char>> {
    seq![
        "العربية"@,
        "Deutsch"@,
        "English"@,
        "Español"@,
        "فارسی"@,
        "Français"@,
        "עברית"@,
        "日本語"@,
        "한국어"@,
        "Nederlands"@,
        "Português (Brasil)"@,
        "Русский"@,
        "Türkçe"@,
        "简体中文"@,
        "繁體中文"@,
    ]
}

/// The name of a language in itself.
pub fn display_name(tag: &str) -> (r: String)
    ensures
        forall|i: int|
            0 <= i < builtin_tags().len() && builtin_tags()[i] == tag@ ==> r@
                == builtin_names()[i],
        !builtin_tags().contains(tag@) ==> r@ == tag@,
        tag@ == "ar"@ ==> r@ == "العربية"@,
        tag@ == "de"@ ==> r@ == "Deutsch"@,
        tag@ == "en"@ ==> r@ == "English"@,
        tag@ == "es"@ ==> r@ == "Español"@,
        tag@ == "fa"@ ==> r@ == "فارسی"@,
        tag@ == "fr"@ ==> r@ == "Français"@,
        tag@ == "he"@ ==> r@ == "עברית"@,
        tag@ == "ja"@ ==> r@ == "日本語"@,
        tag@ == "ko"@ ==> r@ == "한국어"@,
        tag@ == "nl"@ ==> r@ == "Nederlands"@,
        tag@ == "pt-BR"@ ==> r@ == "Português (Brasil)"@,
        tag@ == "ru"@ ==> r@ == "Русский"@,
        tag@ == "tr"@ ==> r@ == "Türkçe"@,
        tag@ == "zh"@ ==> r@ == "简体中文"@,
        tag@ == "zh-Hant"@ ==> r@ == "繁體中文"@,
{
    proof {
        lemma_tags_differ();
        assert(builtin_tags()[0] == "ar"@);
        law_every_language_has_its_name();
    }
    let tags: [&str; 15] = [
        "ar",
        "de",
        "en",
        "es",
        "fa",
        "fr",
        "he",
        "ja",
        "ko",
        "nl",
        "pt-BR",
        "ru",
        "tr",
        "zh",
        "zh-Hant",
    ];
    let names: [&str; 15] = [
        "العربية",
        "Deutsch",
        "English",
        "Español",
        "فارسی",
        "Français",
        "עברית",
        "日本語",
        "한국어",
        "Nederlands",
        "Português (Brasil)",
        "Русский",
        "Türkçe",
        "简体中文",
        "繁體中文",
    ];
    let mut i: usize = 0;
    while i < 15
        invariant
            i <= 15,
            forall|j: int| 0 <= j < 15 ==> (#[trigger] tags@[j])@ == builtin_tags()[j],
            forall|j: int| 0 <= j < 15 ==> (#[trigger] names@[j])@ == builtin_names()[j],
            forall|j: int| 0 <= j < i ==> #[trigger] builtin_tags()[j] != tag@,
            forall|j: int, k: int|
                0 <= j < 15 && 0 <= k < 15 && j != k ==> #[trigger] builtin_tags()[j]
                    != #[trigger] builtin_tags()[k],
        decreases 15 - i,
    {
        if same_str(tag, tags[i]) {
            proof {
                assert(tags@[i as int]@ == builtin_tags()[i as int]);
                assert(names@[i as int]@ == builtin_names()[i as int]);
                assert(builtin_tags().contains(tag@));
            }
            return string_of(chars_of(names[i]).as_slice());
        }
        proof {
            assert(tags@[i as int]@ == builtin_tags()[i as int]);
        }
        i = i + 1;
    }
    string_of(chars_of(tag).as_slice())
}

proof fn lemma_tags_differ()
    ensures
        forall|j: int, k: int|
            0 <= j < 15 && 0 <= k < 15 && j != k ==> #[trigger] builtin_tags()[j]
                != #[trigger] builtin_tags()[k],
{
    reveal_strlit("ar");
    reveal_strlit("de");
    reveal_strlit("en");
    reveal_strlit("es");
    reveal_strlit("fa");
    reveal_strlit("fr");
    reveal_strlit("he");
    reveal_strlit("ja");
    reveal_strlit("ko");
    reveal_strlit("nl");
    reveal_strlit("pt-BR");
    reveal_strlit("ru");
    reveal_strlit("tr");
    reveal_strlit("zh");
    reveal_strlit("zh-Hant");
    let t = builtin_tags();
    assert forall|j: int, k: int| 0 <= j < 15 && 0 <= k < 15 && j != k implies #[trigger] t[j]
        != #[trigger] t[k] by {
        if t[j].len() == t[k].len() && t[j].len() == 2 {
            assert(t[j][0] != t[k][0] || t[j][1] != t[k][1]);
        }
    }
}

/// The tag that a file in the user's language directory stands for.
pub open spec fn tag_of_file(name: Seq<char>) -> Option<Seq<char>> {
    let n = name.len() - ".json"@.len();
    if n >= 0 && name.skip(n) == ".json"@ {
        Some(name.take(n))
    } else {
        None
    }
}

/// The languages on offer: `tags`, and after them those that the files add.
pub open spec fn offered(tags: Seq<Seq<char>>, files: Seq<Seq<char>>) -> Seq<Seq<char>>
    decreases files.len(),
{
    if files.len() == 0 {
        tags
    } else {
        let before = offered(tags, files.drop_last());
        match tag_of_file(files.last()) {
            Some(tag) if !before.contains(tag) => before.push(tag),
            _ => before,
        }
    }
}

fn strip_json(name: &[char]) -> (r: Option<String>)
    ensures
        text_of(r) == tag_of_file(name@),
{
    let suffix = chars_of(".json");
    if name.len() < suffix.len() {
        return None;
    }
    let n: usize = name.len() - suffix.len();
    let tail = vstd::slice::slice_subrange(name, n, name.len());
    proof {
        assert(tail@ =~= name@.skip(n as int));
    }
    if same_text(tail, suffix.as_slice()) {
        let front = vstd::slice::slice_subrange(name, 0, n);
        proof {
            assert(front@ =~= name@.take(n as int));
        }
        Some(string_of(front))
    } else {
        None
    }
}

fn holds_text(v: &Vec<String>, s: &str) -> (r: bool)
    ensures
        r == texts(v@).contains(s@),
{
    let mut i: usize = 0;
    while i < v.len()
        invariant
            i <= v@.len(),
            forall|j: int| 0 <= j < i ==> texts(v@)[j] != s@,
        decreases v@.len() - i,
    {
        if same_str(v[i].as_str(), s) {
            proof {
                assert(texts(v@)[i as int] == s@);
            }
            return true;
        }
        i = i + 1;
    }
    false
}

/// The languages on offer, given the names of the files in the user's language
/// directory: the built-in ones and any `<tag>.json` beside them.
pub fn available(files: &Vec<String>) -> (r: Vec<String>)
    ensures
        texts(r@) == offered(builtin_tags(), texts(files@)),
{
    let mut tags: Vec<String> = Vec::new();
    tags.push(String::from_str("ar"));
    tags.push(String::from_str("de"));
    tags.push(String::from_str("en"));
    tags.push(String::from_str("es"));
    tags.push(String::from_str("fa"));
    tags.push(String::from_str("fr"));
    tags.push(String::from_str("he"));
    tags.push(String::from_str("ja"));
    tags.push(String::from_str("ko"));
    tags.push(String::from_str("nl"));
    tags.push(String::from_str("pt-BR"));
    tags.push(String::from_str("ru"));
    tags.push(String::from_str("tr"));
    tags.push(String::from_str("zh"));
    tags.push(String::from_str("zh-Hant"));
    let ghost names = texts(files@);
    proof {
        assert(texts(tags@) =~= builtin_tags());
        assert(names.take(0) =~= Seq::<Seq<char>>::empty());
    }
    let mut i: usize = 0;
    while i < files.len()
        invariant
            i <= files@.len(),
            names == texts(files@),
            texts(tags@) == offered(builtin_tags(), names.take(i as int)),
        decreases files@.len() - i,
    {
        let name = chars_of(files[i].as_str());
        proof {
            assert(names.take(i + 1).drop_last() =~= names.take(i as int));
            assert(names.take(i + 1).last() == name@);
        }
        if let Some(tag) = strip_json(name.as_slice()) {
            if !holds_text(&tags, tag.as_str()) {
                let ghost before = texts(tags@);
                tags.push(tag);
                proof {
                    assert(texts(tags@) =~= before.push(tag@));
                }
            }
        }
        i = i + 1;
    }
    proof {
        assert(names.take(i as int) =~= names);
    }
    tags
}

/// No language is offered twice, every built-in one is offered, and so is
/// every one for which there is a file.
pub proof fn law_offer_is_complete_and_distinct(files: Seq<Seq<char>>)
    ensures
        offered(builtin_tags(), files).no_duplicates(),
        forall|i: int|
            0 <= i < builtin_tags().len() ==> offered(builtin_tags(), files).contains(
                #[trigger] builtin_tags()[i],
            ),
        forall|i: int|
            0 <= i < files.len() && tag_of_file(#[trigger] files[i]) is Some ==> offered(
                builtin_tags(),
                files,
            ).contains(tag_of_file(files[i])->0),
    decreases files.len(),
{
    lemma_tags_differ();
    let all = offered(builtin_tags(), files);
    if files.len() == 0 {
    } else {
        let init = files.drop_last();
        law_offer_is_complete_and_distinct(init);
        let before = offered(builtin_tags(), init);
        assert forall|x: Seq<char>| before.contains(x) implies all.contains(x) by {
            let k = choose|k: int| 0 <= k < before.len() && before[k] == x;
            assert(all[k] == x);
        }
        assert forall|i: int|
            0 <= i < files.len() && tag_of_file(#[trigger] files[i]) is Some implies all.contains(
            tag_of_file(files[i])->0,
        ) by {
            if i < init.len() {
                assert(init[i] == files[i]);
            } else {
                let tag = tag_of_file(files.last())->0;
                if !before.contains(tag) {
                    assert(all[before.len() as int] == tag);
                }
            }
        }
    }
}

/// A message is shown in the active language where it has an entry, and changing
/// the entry of one message leaves the others alone.
pub proof fn law_an_entry_translates_its_message(
    map: Map<Seq<char>, Seq<char>>,
    msgid: Seq<char>,
    text: Seq<char>,
    other: Seq<char>,
)
    ensures
        translation(map.insert(msgid, text), msgid) == text,
        other != msgid ==> translation(map.insert(msgid, text), other) == translation(map, other),
        translation(Map::<Seq<char>, Seq<char>>::empty(), msgid) == msgid,
{
}

/// What ships with the program holds where the user added nothing, and without
/// either there is no entry.
pub proof fn law_what_is_shipped_holds(shipped: Map<Seq<char>, Seq<char>>, added: Map<Seq<char>, Seq<char>>)
    ensures
        merged(Some(shipped), None) == shipped,
        merged(None, Some(added)) == added,
        merged(None, None) == Map::<Seq<char>, Seq<char>>::empty(),
{
    assert(merged(None, Some(added)) =~= added);
}

/// Of two entries for a message the later counts, and an entry for another
/// message makes no difference to it.
pub proof fn law_the_last_entry_counts(v: Seq<(String, String)>, e: (String, String), key: Seq<char>)
    ensures
        entry_map(Seq::<(String, String)>::empty()) == Map::<Seq<char>, Seq<char>>::empty(),
        entry_map(v.push(e)).dom().contains(e.0@) && entry_map(v.push(e))[e.0@] == e.1@,
        key != e.0@ ==> entry_map(v.push(e)).dom().contains(key) == entry_map(v).dom().contains(
            key,
        ),
        key != e.0@ && entry_map(v).dom().contains(key) ==> entry_map(v.push(e))[key] == entry_map(
            v,
        )[key],
{
    assert(v.push(e).drop_last() =~= v);
}

/// English is known by its tag and by its old name, and no other language is
/// taken for it.
pub proof fn law_english_has_two_names(tag: Seq<char>)
    ensures
        is_english("en"@),
        is_english("English"@),
        is_english(tag) ==> tag == "en"@ || tag == "English"@,
{
}

/// Every language that ships with the program has its name, in itself.
pub proof fn law_every_language_has_its_name()
    ensures
        builtin_tags().len() == 15,
        builtin_names().len() == 15,
        builtin_tags()[0] == "ar"@ && builtin_names()[0] == "العربية"@,
        builtin_tags()[1] == "de"@ && builtin_names()[1] == "Deutsch"@,
        builtin_tags()[2] == "en"@ && builtin_names()[2] == "English"@,
        builtin_tags()[3] == "es"@ && builtin_names()[3] == "Español"@,
        builtin_tags()[4] == "fa"@ && builtin_names()[4] == "فارسی"@,
        builtin_tags()[5] == "fr"@ && builtin_names()[5] == "Français"@,
        builtin_tags()[6] == "he"@ && builtin_names()[6] == "עברית"@,
        builtin_tags()[7] == "ja"@ && builtin_names()[7] == "日本語"@,
        builtin_tags()[8] == "ko"@ && builtin_names()[8] == "한국어"@,
        builtin_tags()[9] == "nl"@ && builtin_names()[9] == "Nederlands"@,
        builtin_tags()[10] == "pt-BR"@ && builtin_names()[10] == "Português (Brasil)"@,
        builtin_tags()[11] == "ru"@ && builtin_names()[11] == "Русский"@,
        builtin_tags()[12] == "tr"@ && builtin_names()[12] == "Türkçe"@,
        builtin_tags()[13] == "zh"@ && builtin_names()[13] == "简体中文"@,
        builtin_tags()[14] == "zh-Hant"@ && builtin_names()[14] == "繁體中文"@,
{
}

/// A file stands for the language that its name without `.json` tags, and a file
/// with another ending for none.
pub proof fn law_a_language_file_is_named_after_its_tag(tag: Seq<char>, name: Seq<char>)
    ensures
        tag_of_file(tag + ".json"@) == Some(tag),
        tag_of_file(name) matches Some(t) ==> name == t + ".json"@,
{
    let s = tag + ".json"@;
    let n = tag.len() as int;
    assert(s.skip(n) =~= ".json"@);
    assert(s.take(n) =~= tag);
    if let Some(t) = tag_of_file(name) {
        assert(name =~= t + ".json"@);
    }
}

/// The built-in languages are offered first, in their order, and nothing is
/// offered that is neither built in nor has a file.
pub proof fn law_nothing_else_is_offered(files: Seq<Seq<char>>, k: int)
    requires
        0 <= k < offered(builtin_tags(), files).len(),
    ensures
        offered(builtin_tags(), files).len() >= builtin_tags().len(),
        k < builtin_tags().len() ==> offered(builtin_tags(), files)[k] == builtin_tags()[k],
        k >= builtin_tags().len() ==> exists|i: int|
            0 <= i < files.len() && tag_of_file(#[trigger] files[i]) == Some(
                offered(builtin_tags(), files)[k],
            ),
    decreases files.len(),
{
    if files.len() > 0 {
        let init = files.drop_last();
        let before = offered(builtin_tags(), init);
        lemma_offer_grows(init);
        if k < before.len() {
            law_nothing_else_is_offered(init, k);
            if k >= builtin_tags().len() {
                let i = choose|i: int|
                    0 <= i < init.len() && tag_of_file(#[trigger] init[i]) == Some(before[k]);
                assert(files[i] == init[i]);
            }
        } else {
            assert(tag_of_file(files[files.len() - 1]) == Some(offered(builtin_tags(), files)[k]));
        }
    }
}

proof fn lemma_offer_grows(files: Seq<Seq<char>>)
    ensures
        offered(builtin_tags(), files).len() >= builtin_tags().len(),
    decreases files.len(),
{
    if files.len() > 0 {
        lemma_offer_grows(files.drop_last());
    }
}

} // verus!
