//! What the dialogs show: the texts and choices of the Add URL, batch and file
//! dialogs, as functions of their state.

use crate::engine::{drm_refusal, StreamProbe};
#[allow(unused_imports)]
use crate::engine::drm_text;
use crate::i18n::{tr, Catalogue};
#[allow(unused_imports)]
use crate::i18n::translation;
use crate::text::{chars_of, push_decimal, trim};
#[allow(unused_imports)]
use crate::text::{decimal, text_of, texts, trimmed};
use vstd::prelude::*;
#[allow(unused_imports)]
use vstd::utf8::is_ascii_chars;

verus! {

/// What `str::to_uppercase` makes of a text that is not all ASCII.
pub uninterp spec fn uppercase(s: Seq<char>) -> Seq<char>;

/// An ASCII letter in upper case.
pub open spec fn upper(c: char) -> char {
    if 'a' <= c <= 'z' {
        (c as u32 - 32) as char
    } else {
        c
    }
}

/// `str::to_uppercase` gives the upper case form of a text, character by
/// character where the text is ASCII. It is a function of the text alone.
#[verifier::external_body]
fn upper_form(s: &str) -> (r: String)
    ensures
        r@ == (if is_ascii_chars(s@) {
            Seq::new(s@.len(), |i: int| upper(s@[i]))
        } else {
            uppercase(s@)
        }),
{
    s.to_uppercase()
}

/// A text in upper case.
pub open spec fn upper_text(s: Seq<char>) -> Seq<char> {
    if is_ascii_chars(s) {
        Seq::new(s.len(), |i: int| upper(s[i]))
    } else {
        uppercase(s)
    }
}

/// What the Add URL dialog shows of a stream.
pub enum StreamSection {
    /// The address is not known to be a stream.
    Nothing,
    /// The manifest is being read.
    Probing(String),
    /// The stream is protected; this is why it is refused.
    Refused(String),
    Offer(StreamOffer),
}

/// The choices that a stream leaves, which have to be settled before its first
/// segment is fetched.
pub struct StreamOffer {
    /// What kind of stream it is.
    pub kind: String,
    /// A remark on separate audio, or nothing.
    pub audio: String,
    /// The containers on offer.
    pub containers: Vec<String>,
    /// Whether to ask for how long to record.
    pub asks_length: bool,
}

/// What kind of stream it is: its protocol, and that it is live, or how long it
/// is.
pub open spec fn kind_text(
    map: Map<Seq<char>, Seq<char>>,
    p: StreamProbe,
    length: Seq<char>,
) -> Seq<char> {
    let name = upper_text(p.protocol@);
    if p.live {
        name + " — "@ + translation(map, "live"@)
    } else if p.duration_secs is Some {
        name + "  "@ + length
    } else {
        name
    }
}

fn kind_line(catalogue: &Catalogue, p: &StreamProbe, length: &str) -> (r: String)
    ensures
        r@ == kind_text(catalogue@, *p, length@),
{
    let mut s = upper_form(p.protocol.as_str());
    if p.live {
        s.append(" — ");
        s.append(tr(catalogue, "live").as_str());
    } else if p.duration_secs.is_some() {
        s.append("  ");
        s.append(length);
    }
    s
}

/// The containers that can be offered: TS only where the segments really are
/// MPEG-TS, since renaming anything else would make a file that lies about
/// itself.
pub open spec fn container_choices(is_ts: bool) -> Seq<Seq<char>> {
    if is_ts {
        seq!["MP4"@, "TS"@]
    } else {
        seq!["MP4"@]
    }
}

fn containers(is_ts: bool) -> (r: Vec<String>)
    ensures
        texts(r@) == container_choices(is_ts),
{
    let mut v: Vec<String> = Vec::new();
    v.push(String::from_str("MP4"));
    if is_ts {
        v.push(String::from_str("TS"));
    }
    proof {
        assert(texts(v@) =~= container_choices(is_ts));
    }
    v
}

/// What the Add URL dialog shows of a stream. `length` is the duration as the
/// user reads it.
pub fn stream_section(
    catalogue: &Catalogue,
    probing: bool,
    probe: Option<&StreamProbe>,
    length: &str,
) -> (r: StreamSection)
    ensures
        if probing {
            r matches StreamSection::Probing(t) && t@ == translation(
                catalogue@,
                "Reading the stream's quality list..."@,
            )
        } else {
            match probe {
                None => r is Nothing,
                Some(p) => match p.drm {
                    Some(d) => r matches StreamSection::Refused(t) && t@ == drm_text(
                        catalogue@,
                        d@,
                    ),
                    None => r matches StreamSection::Offer(o) && {
                        &&& o.kind@ == kind_text(catalogue@, *p, length@)
                        &&& o.audio@ == (if p.separate_audio {
                            translation(catalogue@, "video + audio"@)
                        } else {
                            Seq::empty()
                        })
                        &&& texts(o.containers@) == container_choices(p.is_ts)
                        &&& o.asks_length == p.live
                    },
                },
            }
        },
{
    if probing {
        return StreamSection::Probing(tr(catalogue, "Reading the stream's quality list..."));
    }
    match probe {
        None => StreamSection::Nothing,
        Some(p) => match &p.drm {
            Some(d) => StreamSection::Refused(drm_refusal(catalogue, d.as_str())),
            None => {
                let audio = if p.separate_audio {
                    tr(catalogue, "video + audio")
                } else {
                    String::new()
                };
                StreamSection::Offer(
                    StreamOffer {
                        kind: kind_line(catalogue, p, length),
                        audio,
                        containers: containers(p.is_ts),
                        asks_length: p.live,
                    },
                )
            },
        },
    }
}

/// The line below the address: an error, or a notice that the site is blocked
/// from starting on its own.
pub fn address_notice(
    catalogue: &Catalogue,
    error: Option<&str>,
    address: &str,
    blocked: bool,
) -> (r: Option<String>)
    ensures
        text_of(r) == (match error {
            Some(e) => Some(e@),
            None => if trimmed(address@).len() > 0 && blocked {
                Some(
                    translation(
                        catalogue@,
                        "This site is on the auto-start block list; it will be added, not started."@,
                    ),
                )
            } else {
                None
            },
        }),
{
    match error {
        Some(e) => Some(String::from_str(e)),
        None => {
            let chars = chars_of(address);
            let shown = trim(chars.as_slice());
            if shown.len() > 0 && blocked {
                Some(
                    tr(
                        catalogue,
                        "This site is on the auto-start block list; it will be added, not started.",
                    ),
                )
            } else {
                None
            }
        },
    }
}

/// The name of a link in a batch: the probe's answer where there is one, since
/// a redirecting link has no name of its own.
pub fn batch_name(probed: Option<&str>, from_url: &str) -> (r: String)
    ensures
        r@ == (match probed {
            Some(n) => n@,
            None => from_url@,
        }),
{
    match probed {
        Some(n) => String::from_str(n),
        None => String::from_str(from_url),
    }
}

/// How the files of a batch are saved.
#[derive(Clone, Copy, Debug, PartialEq, Eq, Structural)]
pub enum SaveMode {
    /// Each by its own category.
    ByCategory,
    /// All to one category.
    OneCategory,
    /// All to one directory.
    OneDirectory,
}

/// Which way of saving is selected; one category takes precedence.
pub fn save_mode(to_category: bool, to_dir: bool) -> (r: SaveMode)
    ensures
        r == (if to_category {
            SaveMode::OneCategory
        } else if to_dir {
            SaveMode::OneDirectory
        } else {
            SaveMode::ByCategory
        }),
{
    if to_category {
        SaveMode::OneCategory
    } else if to_dir {
        SaveMode::OneDirectory
    } else {
        SaveMode::ByCategory
    }
}

/// Which category decides where a link is saved; nothing where a directory was
/// named. `own` is the category of the link's name.
pub fn batch_category(to_dir: bool, to_category: bool, chosen: &str, own: Option<&str>) -> (r:
    Option<String>)
    ensures
        text_of(r) == (if to_dir {
            None
        } else if to_category {
            Some(chosen@)
        } else {
            match own {
                Some(c) => Some(c@),
                None => None,
            }
        }),
{
    if to_dir {
        return None;
    }
    if to_category {
        return Some(String::from_str(chosen));
    }
    match own {
        Some(c) => Some(String::from_str(c)),
        None => None,
    }
}

/// Where a link is saved: the directory that was named, else that of its
/// category, else the general one.
pub fn save_to(to_dir: bool, dir: &str, category_dir: Option<&str>, general_dir: Option<&str>) -> (r:
    String)
    ensures
        r@ == (if to_dir {
            dir@
        } else {
            match (category_dir, general_dir) {
                (Some(d), _) => d@,
                (None, Some(d)) => d@,
                (None, None) => Seq::empty(),
            }
        }),
{
    if to_dir {
        return String::from_str(dir);
    }
    match category_dir {
        Some(d) => String::from_str(d),
        None => match general_dir {
            Some(d) => String::from_str(d),
            None => String::new(),
        },
    }
}

/// Where a link comes from, with a remark where its site is blocked.
pub fn batch_source(catalogue: &Catalogue, url: &str, blocked: bool) -> (r: String)
    ensures
        r@ == (if blocked {
            url@ + " ("@ + translation(catalogue@, "blocked site"@) + ")"@
        } else {
            url@
        }),
{
    let mut s = String::from_str(url);
    if blocked {
        s.append(" (");
        s.append(tr(catalogue, "blocked site").as_str());
        s.append(")");
    }
    s
}

/// How many links are both checked and manifests.
pub open spec fn stream_count(checked: Seq<bool>, manifest: Seq<bool>) -> int
    decreases checked.len(),
{
    if checked.len() == 0 {
        0
    } else {
        stream_count(checked.drop_last(), manifest) + (if checked.last() && manifest[checked.len()
            - 1] {
            1int
        } else {
            0
        })
    }
}

/// The one stream setting that a batch needs.
pub struct StreamsRow {
    pub text: String,
    /// The container that is selected.
    pub container: String,
}

/// The stream setting of a batch, shown only when there is a stream in it.
/// `checked` and `manifest` say of each link whether it is checked and whether
/// its address is that of a manifest.
pub fn streams_row(
    catalogue: &Catalogue,
    checked: &Vec<bool>,
    manifest: &Vec<bool>,
    container: &str,
) -> (r: Option<StreamsRow>)
    requires
        checked@.len() == manifest@.len(),
    ensures
        ({
            let n = stream_count(checked@, manifest@);
            match r {
                None => n == 0,
                Some(row) => {
                    &&& n > 0
                    &&& row.text@ == decimal(n as nat) + " "@ + translation(
                        catalogue@,
                        "stream(s) in this list — download at"@,
                    )
                    &&& row.container@ == (if container@.len() == 0 {
                        "MP4"@
                    } else {
                        container@
                    })
                },
            }
        }),
{
    let mut n: u64 = 0;
    let mut i: usize = 0;
    proof {
        assert(checked@.take(0) =~= Seq::<bool>::empty());
    }
    while i < checked.len()
        invariant
            i <= checked@.len(),
            checked@.len() == manifest@.len(),
            n <= i,
            n == stream_count(checked@.take(i as int), manifest@),
        decreases checked@.len() - i,
    {
        proof {
            assert(checked@.take(i + 1).drop_last() =~= checked@.take(i as int));
            assert(checked@.take(i + 1).last() == checked@[i as int]);
        }
        if checked[i] && manifest[i] {
            n = n + 1;
        }
        i = i + 1;
    }
    proof {
        assert(checked@.take(i as int) =~= checked@);
    }
    if n == 0 {
        return None;
    }
    let mut text = String::new();
    push_decimal(&mut text, n);
    proof {
        assert(text@ =~= decimal(n as nat));
    }
    text.append(" ");
    text.append(tr(catalogue, "stream(s) in this list — download at").as_str());
    let chars = chars_of(container);
    let container = if chars.len() == 0 {
        String::from_str("MP4")
    } else {
        String::from_str(container)
    };
    Some(StreamsRow { text, container })
}

/// The size in the file dialog: as the user reads it, with the exact count, or
/// a question mark.
pub fn size_line(size: Option<u64>, readable: &str) -> (r: String)
    ensures
        r@ == (match size {
            Some(n) => readable@ + " ("@ + decimal(n as nat) + " Bytes)"@,
            None => "?"@,
        }),
{
    match size {
        Some(n) => {
            let mut s = String::from_str(readable);
            s.append(" (");
            push_decimal(&mut s, n);
            s.append(" Bytes)");
            s
        },
        None => String::from_str("?"),
    }
}

/// The title of the file dialog.
pub fn file_title(catalogue: &Catalogue, is_new: bool) -> (r: String)
    ensures
        r@ == translation(
            catalogue@,
            if is_new {
                "Download File Info"@
            } else {
                "File Properties"@
            },
        ),
{
    if is_new {
        tr(catalogue, "Download File Info")
    } else {
        tr(catalogue, "File Properties")
    }
}

/// What the file dialog shows and allows.
#[derive(Clone, Copy, Debug, PartialEq, Eq, Structural)]
pub struct FileForm {
    /// The address can be changed, which switches to another mirror.
    pub address_editable: bool,
    /// The status, login, cookies and last attempt are shown.
    pub shows_history: bool,
    /// The choices for a download that has just begun are shown.
    pub shows_start_options: bool,
    /// The transfer runs behind the dialog.
    pub runs_in_background: bool,
    /// The finished file can be opened.
    pub can_open: bool,
}

/// Decides what the file dialog shows and allows.
pub fn file_form(is_new: bool, complete: bool, bg_download: bool, bg_blocked: bool) -> (r: FileForm)
    ensures
        r == (FileForm {
            address_editable: !is_new,
            shows_history: !is_new,
            shows_start_options: is_new,
            runs_in_background: bg_download && !bg_blocked,
            can_open: !is_new && complete,
        }),
{
    FileForm {
        address_editable: !is_new,
        shows_history: !is_new,
        shows_start_options: is_new,
        runs_in_background: bg_download && !bg_blocked,
        can_open: !is_new && complete,
    }
}

/// The category whose folder is remembered: the first one while category
/// folders are switched off, else the one that is selected.
pub open spec fn remembered<'a>(
    no_category_dirs: bool,
    first: Option<&'a str>,
    selected: &'a str,
) -> Seq<char> {
    if no_category_dirs {
        match first {
            Some(c) => c@,
            None => selected@,
        }
    } else {
        selected@
    }
}

/// The label of the box that remembers a folder for a category.
pub fn remember_label(
    catalogue: &Catalogue,
    no_category_dirs: bool,
    first: Option<&str>,
    selected: &str,
) -> (r: String)
    ensures
        r@ == translation(catalogue@, "Remember this path for"@) + " \""@ + remembered(
            no_category_dirs,
            first,
            selected,
        ) + "\" "@ + translation(catalogue@, "category"@),
{
    let mut s = tr(catalogue, "Remember this path for");
    s.append(" \"");
    if no_category_dirs {
        match first {
            Some(c) => s.append(c),
            None => s.append(selected),
        }
    } else {
        s.append(selected);
    }
    s.append("\" ");
    s.append(tr(catalogue, "category").as_str());
    s
}

/// Upper case changes the twenty-six small letters and nothing else.
pub proof fn law_upper_case_changes_letters_only(s: Seq<char>, i: int)
    requires
        0 <= i < s.len(),
        is_ascii_chars(s),
    ensures
        upper_text(s).len() == s.len(),
        'a' <= s[i] <= 'z' ==> upper_text(s)[i] as int == s[i] as int - 32,
        !('a' <= s[i] <= 'z') ==> upper_text(s)[i] == s[i],
{
}

/// A live stream is said to be live, and any other shows its length where that
/// is known.
pub proof fn law_a_stream_says_whether_it_is_live(
    map: Map<Seq<char>, Seq<char>>,
    p: StreamProbe,
    length: Seq<char>,
)
    ensures
        p.live ==> kind_text(map, p, length) == upper_text(p.protocol@) + " — "@ + translation(
            map,
            "live"@,
        ),
        !p.live && p.duration_secs is Some ==> kind_text(map, p, length) == upper_text(p.protocol@)
            + "  "@ + length,
        !p.live && p.duration_secs is None ==> kind_text(map, p, length) == upper_text(
            p.protocol@,
        ),
{
}

/// MP4 is always on offer, and TS only for a stream that is made of it.
pub proof fn law_ts_is_offered_only_where_it_is_true(is_ts: bool)
    ensures
        container_choices(is_ts).len() == (if is_ts {
            2int
        } else {
            1
        }),
        container_choices(is_ts)[0] == "MP4"@,
        is_ts ==> container_choices(is_ts)[1] == "TS"@,
        container_choices(is_ts).contains("TS"@) <==> is_ts,
{
    reveal_strlit("MP4");
    reveal_strlit("TS");
    assert("MP4"@.len() != "TS"@.len());
    if is_ts {
        assert(container_choices(is_ts)[1] == "TS"@);
    }
}

/// The streams of a batch are the links that are both checked and manifests: each
/// such link counts once, and no other does.
pub proof fn law_checked_manifests_count_once(checked: Seq<bool>, manifest: Seq<bool>, c: bool, m: bool)
    requires
        checked.len() == manifest.len(),
    ensures
        stream_count(Seq::<bool>::empty(), manifest) == 0,
        stream_count(checked.push(c), manifest.push(m)) == stream_count(checked, manifest) + (if c
            && m {
            1int
        } else {
            0
        }),
        0 <= stream_count(checked, manifest) <= checked.len(),
{
    let all = checked.push(c);
    assert(all.drop_last() =~= checked);
    lemma_count_prefix(checked, manifest, manifest.push(m));
    lemma_count_bound(checked, manifest);
}

proof fn lemma_count_prefix(checked: Seq<bool>, a: Seq<bool>, b: Seq<bool>)
    requires
        forall|i: int| 0 <= i < checked.len() ==> a[i] == b[i],
    ensures
        stream_count(checked, a) == stream_count(checked, b),
    decreases checked.len(),
{
    if checked.len() > 0 {
        lemma_count_prefix(checked.drop_last(), a, b);
        assert(a[checked.len() - 1] == b[checked.len() - 1]);
    }
}

proof fn lemma_count_bound(checked: Seq<bool>, manifest: Seq<bool>)
    ensures
        0 <= stream_count(checked, manifest) <= checked.len(),
    decreases checked.len(),
{
    if checked.len() > 0 {
        lemma_count_bound(checked.drop_last(), manifest);
    }
}

/// A folder is remembered for the category that is selected, or for the first
/// one while category folders are switched off.
pub proof fn law_a_folder_is_remembered_for_its_category(first: &str, selected: &str)
    ensures
        remembered(false, Some(first), selected) == selected@,
        remembered(false, None, selected) == selected@,
        remembered(true, Some(first), selected) == first@,
        remembered(true, None, selected) == selected@,
{
}

} // verus!
