//! What a merge of one target starts from: the file on disk, what its source renders to, what
//! was last written, and for a template which rendered bytes are its own.

use vstd::prelude::*;
use vstd::string::*;
use vstd::utf8::*;

use crate::chezmoi::{chezmoi_calls, dump_reply, lemma_chezmoi_call, lemma_no_chezmoi_calls};
use crate::chezmoi::{outcome, outcome_text, ChezmoiClient, ChezmoiError, Entry, Failure};
use crate::cmd::{added, optional, CommandRunner, Reply};
use crate::resolve::{is_templated, templated};
use crate::scanner::{entry_at, find_entry};
use crate::template::anchor::{anchor, segments_fit, spans_of, SpanMap};
use crate::template::lexer::{is_segment_of, law_segments_tile_the_template, lex, lexed};
use crate::template::lexer::{LexError, Segment};
use crate::template::writeback::{addressable, law_anchored_maps_are_addressable};
use crate::text::{trim, utf8_string};

verus! {

/// What a merge starts from.
#[derive(Debug)]
pub struct MergeInputs {
    pub target: String,
    /// The file on disk; empty where there is none.
    pub ours: String,
    /// What the source renders to.
    pub theirs: String,
    /// What was last written, where a copy of it was kept.
    pub base: Option<String>,
    pub source_path: String,
    /// The source is a template.
    pub templated: bool,
    /// The template itself.
    pub template: Option<String>,
    /// Which bytes of `theirs` the template holds itself.
    pub span_map: Option<SpanMap>,
}

#[derive(Debug)]
pub enum MergeInputsError {
    /// One of the texts is not UTF-8.
    Binary,
    Chezmoi(ChezmoiError),
    Journal(String),
    Io(String),
    Lex(LexError),
}

impl MergeInputsError {
    pub open spec fn message_spec(self) -> Seq<char> {
        match self {
            MergeInputsError::Binary =>
                "binary content — the merge editor handles UTF-8 text only"@,
            MergeInputsError::Chezmoi(e) => e.message_spec(),
            MergeInputsError::Journal(s) => s@,
            MergeInputsError::Io(s) => s@,
            MergeInputsError::Lex(e) => e.message_spec(),
        }
    }

    /// The error in words.
    pub fn message(&self) -> (r: String)
        ensures
            r@ == self.message_spec(),
    {
        match self {
            MergeInputsError::Binary =>
                "binary content — the merge editor handles UTF-8 text only".to_owned(),
            MergeInputsError::Chezmoi(e) => e.message(),
            MergeInputsError::Journal(s) => s.clone(),
            MergeInputsError::Io(s) => s.clone(),
            MergeInputsError::Lex(e) => e.message(),
        }
    }
}

/// The bytes of a file; a file that is not there has none.
pub open spec fn content(file: Option<Vec<u8>>) -> Seq<u8> {
    match file {
        Some(b) => b@,
        None => seq![],
    }
}

/// The text of a file on disk: a missing one is empty, one that is not UTF-8 has none.
pub fn ours_text(file: Option<Vec<u8>>) -> (r: Option<String>)
    ensures
        match r {
            Some(t) => encode_utf8(t@) == content(file),
            None => !valid_utf8(content(file)),
        },
{
    match file {
        Some(b) => utf8_string(b),
        None => {
            let s = String::new();
            assert(encode_utf8(s@) =~= seq![]);
            Some(s)
        },
    }
}

/// The hash under which the last text that was written was kept, where one is known.
pub open spec fn base_hash_of(dump: Seq<(Seq<char>, Entry)>, target: Seq<char>) -> Option<
    Seq<char>,
> {
    match entry_at(dump, target, 0) {
        Some(e) => e.contents_sha256,
        None => None,
    }
}

/// The base is the text that was kept: none where it was not kept, or is not UTF-8.
pub open spec fn is_base(base: Option<Seq<char>>, blob: Option<Vec<u8>>) -> bool {
    match (base, blob) {
        (Some(t), Some(b)) => encode_utf8(t) == b@,
        (None, Some(b)) => !valid_utf8(b@),
        (None, None) => true,
        (Some(_), None) => false,
    }
}

/// The text that was kept.
pub fn base_text(blob: Option<Vec<u8>>) -> (r: Option<String>)
    ensures
        is_base(optional(r), blob),
{
    match blob {
        Some(b) => utf8_string(b),
        None => None,
    }
}

/// What the template of a target adds: its text, and which rendered bytes are its own.
pub open spec fn anchored(template: Seq<char>, rendered: Seq<char>, map: SpanMap) -> bool {
    &&& lexed(encode_utf8(template)) matches Ok(segs)
    &&& map.spans@ == spans_of(encode_utf8(template), segs, encode_utf8(rendered))
    &&& addressable(map.spans@)
}

/// Anchors a template in what it renders to.
pub fn anchor_template(template: &str, rendered: &str) -> (r: Result<SpanMap, LexError>)
    requires
        template.spec_bytes().len() < 0x4_0000_0000,
    ensures
        match r {
            Ok(map) => anchored(template@, rendered@, map),
            Err(e) => lexed(encode_utf8(template@)) == Err::<Seq<Segment>, LexError>(e),
        },
{
    let segments = match lex(template) {
        Ok(s) => s,
        Err(e) => {
            return Err(e);
        },
    };
    let tlen: usize = template.as_bytes().len();
    let rlen: usize = rendered.as_bytes().len();
    let slen: usize = segments.len();
    let ghost t = encode_utf8(template@);
    proof {
        law_segments_tile_the_template(template@);
        assert(segments_fit(t, segments@)) by {
            assert forall|k: int|
                0 <= k < segments@.len() implies (#[trigger] segments@[k]).src.start
                <= segments@[k].src.end && segments@[k].src.end <= t.len() by {
                assert(is_segment_of(t, segments@[k]));
            }
        }
    }
    let map = anchor(template, segments.as_slice(), rendered);
    proof {
        law_anchored_maps_are_addressable(t, segments@, encode_utf8(rendered@));
    }
    Ok(map)
}

/// Reading a file may give this.
pub open spec fn reads<F: Fn(String) -> Result<Option<Vec<u8>>, String>>(
    read_file: F,
    path: Seq<char>,
    r: Result<Option<Vec<u8>>, String>,
) -> bool {
    exists|p: String| p@ == path && #[trigger] read_file.ensures((p,), r)
}

/// Reading a text may give this.
pub open spec fn reads_text<F: Fn(String) -> Result<String, String>>(
    read_text: F,
    path: Seq<char>,
    r: Result<String, String>,
) -> bool {
    exists|p: String| p@ == path && #[trigger] read_text.ensures((p,), r)
}

/// What was kept under a hash may be this.
pub open spec fn keeps<F: Fn(String) -> Option<Vec<u8>>>(
    get_blob: F,
    hash: Seq<char>,
    r: Option<Vec<u8>>,
) -> bool {
    exists|h: String| h@ == hash && #[trigger] get_blob.ensures((h,), r)
}

/// The arguments of the calls that loading makes.
pub open spec fn load_args(target: Seq<char>) -> Seq<Seq<Seq<char>>> {
    seq![
        seq!["source-path"@, target],
        seq!["cat"@, target],
        seq!["state"@, "dump"@, "--format=json"@],
    ]
}

/// The inputs are what the answers and the files say.
pub open spec fn inputs_are<
    F: Fn(String) -> Result<Option<Vec<u8>>, String>,
    T: Fn(String) -> Result<String, String>,
    B: Fn(String) -> Option<Vec<u8>>,
>(
    i: MergeInputs,
    target: Seq<char>,
    said: Seq<Reply>,
    read_file: F,
    read_text: T,
    get_blob: B,
) -> bool {
    &&& i.target@ == target
    &&& outcome_text(said[0]) matches Ok(p)
    &&& i.source_path@ == trim(p)
    &&& outcome(said[1]) == Ok::<Seq<u8>, Failure>(encode_utf8(i.theirs@))
    &&& exists|file: Option<Vec<u8>>| #[trigger]
        reads(read_file, target, Ok(file)) && encode_utf8(i.ours@) == content(file)
    &&& dump_reply(said[2]) matches Ok(dump)
    &&& match base_hash_of(dump, target) {
        None => i.base is None,
        Some(h) => exists|blob: Option<Vec<u8>>| #[trigger]
            keeps(get_blob, h, blob) && is_base(optional(i.base), blob),
    }
    &&& i.templated == templated(i.source_path@)
    &&& match (i.template, i.span_map) {
        (Some(t), Some(map)) => {
            &&& i.templated
            &&& exists|text: String| #[trigger]
                reads_text(read_text, i.source_path@, Ok(text)) && text@ == t@
            &&& anchored(t@, i.theirs@, map)
        },
        (None, None) => !i.templated,
        _ => false,
    }
}

/// Loading failed, and for this reason: a call of chezmoi failed; what a source renders to, or
/// the file on disk, is not UTF-8; a file could not be read; the template is malformed. A copy
/// of what was last written that cannot be had is no reason.
pub open spec fn load_failed<
    F: Fn(String) -> Result<Option<Vec<u8>>, String>,
    T: Fn(String) -> Result<String, String>,
>(
    e: MergeInputsError,
    target: Seq<char>,
    said: Seq<Reply>,
    read_file: F,
    read_text: T,
) -> bool {
    match e {
        MergeInputsError::Chezmoi(c) => {
            ||| said.len() == 1 && outcome_text(said[0]) == Err::<Seq<char>, Failure>(c@)
            ||| said.len() == 2 && outcome(said[1]) == Err::<Seq<u8>, Failure>(c@)
            ||| said.len() == 3 && dump_reply(said[2]) == Err::<
                Seq<(Seq<char>, Entry)>,
                Failure,
            >(c@)
        },
        MergeInputsError::Binary => said.len() == 2 && {
            ||| outcome(said[1]) matches Ok(b) && !valid_utf8(b)
            ||| exists|file: Option<Vec<u8>>| #[trigger]
                reads(read_file, target, Ok(file)) && !valid_utf8(content(file))
        },
        MergeInputsError::Journal(_) => false,
        MergeInputsError::Io(s) => {
            ||| said.len() == 2 && reads(read_file, target, Err(s))
            ||| said.len() == 3 && (outcome_text(said[0]) matches Ok(p) && templated(trim(p))
                && reads_text(read_text, trim(p), Err(s)))
        },
        MergeInputsError::Lex(l) => said.len() == 3 && (outcome_text(said[0]) matches Ok(p)
            && templated(trim(p)) && exists|text: String| #[trigger]
            reads_text(read_text, trim(p), Ok(text)) && lexed(encode_utf8(text@)) == Err::<
                Seq<Segment>,
                LexError,
            >(l)),
    }
}

/// Loads what a merge of a target starts from. `read_file` reads a file, or finds none;
/// `read_text` reads a text; `get_blob` gives what was kept under a hash.
pub fn load<
    R: CommandRunner,
    F: Fn(String) -> Result<Option<Vec<u8>>, String>,
    T: Fn(String) -> Result<String, String>,
    B: Fn(String) -> Option<Vec<u8>>,
>(
    chezmoi: &mut ChezmoiClient<R>,
    read_file: &F,
    read_text: &T,
    get_blob: &B,
    target: &str,
) -> (r: Result<MergeInputs, MergeInputsError>)
    requires
        forall|p: String| read_file.requires((p,)),
        forall|p: String| read_text.requires((p,)),
        forall|p: String| get_blob.requires((p,)),
        forall|p: String, t: String| #[trigger]
            read_text.ensures((p,), Ok(t)) ==> encode_utf8(t@).len() < 0x4_0000_0000,
    ensures
        ({
            let said = added(old(chezmoi).runner.replies(), final(chezmoi).runner.replies());
            &&& 1 <= said.len() <= 3
            &&& chezmoi_calls(
                *old(chezmoi),
                *final(chezmoi),
                load_args(target@).take(said.len() as int),
            )
            &&& match r {
                Ok(i) => said.len() == 3 && inputs_are(
                    i,
                    target@,
                    said,
                    *read_file,
                    *read_text,
                    *get_blob,
                ),
                Err(e) => load_failed(e, target@, said, *read_file, *read_text),
            }
        }),
{
    let ghost c0 = *chezmoi;
    let ghost args = load_args(target@);
    proof {
        lemma_no_chezmoi_calls(c0);
    }
    let first = chezmoi.source_path(target);
    let ghost c1 = *chezmoi;
    proof {
        lemma_chezmoi_call(c0, c0, c1, seq![], args[0]);
        assert(args.take(1) =~= seq![].push(args[0]));
    }
    let source_path = match first {
        Ok(p) => p,
        Err(e) => {
            return Err(MergeInputsError::Chezmoi(e));
        },
    };
    let second = chezmoi.cat(target);
    let ghost c2 = *chezmoi;
    proof {
        lemma_chezmoi_call(c0, c1, c2, args.take(1), args[1]);
        assert(args.take(2) =~= args.take(1).push(args[1]));
    }
    let rendered = match second {
        Ok(b) => b,
        Err(e) => {
            return Err(MergeInputsError::Chezmoi(e));
        },
    };
    let theirs = match utf8_string(rendered) {
        Some(t) => t,
        None => {
            return Err(MergeInputsError::Binary);
        },
    };
    let path = target.to_owned();
    let ghost p = path;
    let file = match read_file(path) {
        Ok(f) => f,
        Err(e) => {
            assert(read_file.ensures((p,), Err(e)));
            return Err(MergeInputsError::Io(e));
        },
    };
    let ghost on_disk = file;
    assert(read_file.ensures((p,), Ok(on_disk)));
    assert(reads(*read_file, target@, Ok(on_disk)));
    let ours = match ours_text(file) {
        Some(t) => t,
        None => {
            return Err(MergeInputsError::Binary);
        },
    };
    let third = chezmoi.state_dump();
    let ghost c3 = *chezmoi;
    proof {
        lemma_chezmoi_call(c0, c2, c3, args.take(2), args[2]);
        assert(args.take(3) =~= args.take(2).push(args[2]));
    }
    let dump = match third {
        Ok(d) => d,
        Err(e) => {
            return Err(MergeInputsError::Chezmoi(e));
        },
    };
    let hash = match find_entry(&dump, target) {
        Some(e) => match &e.contents_sha256 {
            Some(h) => Some(h.clone()),
            None => None,
        },
        None => None,
    };
    let ghost named = base_hash_of(dump@, target@);
    assert(optional(hash) == named);
    let base = match hash {
        Some(h) => {
            let ghost gh = h;
            let blob = get_blob(h);
            let ghost kept = blob;
            let text = base_text(blob);
            proof {
                assert(get_blob.ensures((gh,), kept));
                assert(named == Some(gh@));
                assert(keeps(*get_blob, named->Some_0, kept));
                assert(is_base(optional(text), kept));
            }
            text
        },
        None => None,
    };
    assert(match named {
        None => base is None,
        Some(h) => exists|blob: Option<Vec<u8>>| #[trigger]
            keeps(*get_blob, h, blob) && is_base(optional(base), blob),
    });
    let is_template = is_templated(source_path.as_str());
    let (template, span_map): (Option<String>, Option<SpanMap>) = if is_template {
        let path = source_path.clone();
        let ghost p = path;
        let text = match read_text(path) {
            Ok(t) => t,
            Err(e) => {
                assert(read_text.ensures((p,), Err(e)));
                return Err(MergeInputsError::Io(e));
            },
        };
        assert(read_text.ensures((p,), Ok(text)));
        assert(reads_text(*read_text, source_path@, Ok(text)));
        match anchor_template(text.as_str(), theirs.as_str()) {
            Ok(map) => (Some(text), Some(map)),
            Err(e) => {
                return Err(MergeInputsError::Lex(e));
            },
        }
    } else {
        (None, None)
    };
    let inputs = MergeInputs {
        target: target.to_owned(),
        ours,
        theirs,
        base,
        source_path,
        templated: is_template,
        template,
        span_map,
    };
    proof {
        let said = added(c0.runner.replies(), chezmoi.runner.replies());
        assert(said.len() == 3);
        assert(outcome_text(said[0]) matches Ok(p) && inputs.source_path@ == trim(p));
        assert(outcome(said[1]) == Ok::<Seq<u8>, Failure>(encode_utf8(inputs.theirs@)));
        assert(dump_reply(said[2]) == Ok::<Seq<(Seq<char>, Entry)>, Failure>(dump@));
        assert(match base_hash_of(dump@, target@) {
            None => inputs.base is None,
            Some(h) => exists|blob: Option<Vec<u8>>| #[trigger]
                keeps(*get_blob, h, blob) && is_base(optional(inputs.base), blob),
        });
        assert(inputs_are(inputs, target@, said, *read_file, *read_text, *get_blob));
    }
    Ok(inputs)
}

} // verus!
