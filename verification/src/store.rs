use vstd::prelude::*;
use crate::errors::StoreError;
use crate::json::{
    spec_encode_voices, spec_parse_voices, voice_view, voice_views, voices_from_json,
    voices_to_json, VoiceView,
};
use crate::voice::{delete, delete_from, delete_seq, first_idx, upsert, upsert_seq, Voice};

verus! {

// ------------------------------------------------------------------
// The collection operations, stated over record views
// ------------------------------------------------------------------

pub open spec fn first_idx_views(s: Seq<VoiceView>, id: Seq<char>) -> int
    decreases s.len(),
{
    if s.len() == 0 {
        -1
    } else if s[0].id == id {
        0
    } else {
        let r = first_idx_views(s.drop_first(), id);
        if r == -1 {
            -1
        } else {
            r + 1
        }
    }
}

/// What upsert does to a collection, seen through the record views.
pub open spec fn upsert_views(s: Seq<VoiceView>, v: VoiceView) -> Seq<VoiceView> {
    if first_idx_views(s, v.id) >= 0 {
        s.update(first_idx_views(s, v.id), v)
    } else {
        s.push(v)
    }
}

pub open spec fn delete_views_from(s: Seq<VoiceView>, id: Seq<char>, from: int) -> Seq<VoiceView>
    decreases s.len() - from,
{
    if from < 0 || from >= s.len() {
        Seq::empty()
    } else if s[from].id == id {
        delete_views_from(s, id, from + 1)
    } else {
        seq![s[from]] + delete_views_from(s, id, from + 1)
    }
}

/// What delete does to a collection, seen through the record views.
pub open spec fn delete_views(s: Seq<VoiceView>, id: Seq<char>) -> Seq<VoiceView> {
    delete_views_from(s, id, 0)
}

proof fn lemma_first_idx_views(s: Seq<Voice>, id: Seq<char>)
    ensures
        first_idx(s, id) == first_idx_views(voice_views(s), id),
    decreases s.len(),
{
    if s.len() == 0 {
    } else {
        assert(voice_views(s)[0] == voice_view(s[0]));
        if s[0].id@ == id {
        } else {
            lemma_first_idx_views(s.drop_first(), id);
            assert(voice_views(s.drop_first()) =~= voice_views(s).drop_first());
        }
    }
}

/// Upserting commutes with taking views.
pub proof fn lemma_upsert_views(s: Seq<Voice>, v: Voice)
    ensures
        voice_views(upsert_seq(s, v)) == upsert_views(voice_views(s), voice_view(v)),
{
    lemma_first_idx_views(s, v.id@);
    let fi = first_idx(s, v.id@);
    if fi >= 0 {
        crate::voice::lemma_first_idx(s, v.id@);
        assert(voice_views(s.update(fi, v)) =~= voice_views(s).update(fi, voice_view(v)));
    } else {
        assert(voice_views(s.push(v)) =~= voice_views(s).push(voice_view(v)));
    }
}

proof fn lemma_delete_views_from(s: Seq<Voice>, id: Seq<char>, from: int)
    requires
        0 <= from,
    ensures
        voice_views(delete_from(s, id, from)) == delete_views_from(voice_views(s), id, from),
    decreases s.len() - from,
{
    if from >= s.len() {
        assert(voice_views(Seq::<Voice>::empty()) =~= Seq::<VoiceView>::empty());
    } else {
        lemma_delete_views_from(s, id, from + 1);
        assert(voice_views(s)[from] == voice_view(s[from]));
        if s[from].id@ == id {
        } else {
            assert(voice_views(seq![s[from]] + delete_from(s, id, from + 1)) =~= seq![
                voice_view(s[from]),
            ] + voice_views(delete_from(s, id, from + 1)));
        }
    }
}

/// Deleting commutes with taking views.
pub proof fn lemma_delete_views(s: Seq<Voice>, id: Seq<char>)
    ensures
        voice_views(delete_seq(s, id)) == delete_views(voice_views(s), id),
{
    lemma_delete_views_from(s, id, 0);
}

// ------------------------------------------------------------------
// The compute cores of the store operations
// ------------------------------------------------------------------

/// The compute core of loading the catalog: a missing file (`None`) reads as
/// the empty collection; an existing file's text must parse.
pub fn load_from_json(stored: Option<&str>) -> (r: Result<Vec<Voice>, StoreError>)
    ensures
        match r {
            Ok(vs) => match stored {
                Some(text) => spec_parse_voices(text@) == Some(voice_views(vs@)),
                None => vs@.len() == 0,
            },
            Err(e) => stored matches Some(text) && spec_parse_voices(text@) is None && e is Parse,
        },
{
    match stored {
        Some(text) => voices_from_json(text),
        None => Ok(Vec::new()),
    }
}

/// The compute core of saving a voice: read the stored document (a missing
/// file reads as the empty collection), upsert the record, and render the
/// document to be written back.
pub fn upsert_in_json(stored: Option<&str>, voice: Voice) -> (r: Result<String, StoreError>)
    ensures
        match r {
            Ok(out) => match stored {
                Some(text) => spec_parse_voices(text@) matches Some(views) && out@
                    == spec_encode_voices(upsert_views(views, voice_view(voice))),
                None => out@ == spec_encode_voices(
                    upsert_views(Seq::empty(), voice_view(voice)),
                ),
            },
            Err(e) => stored matches Some(text) && spec_parse_voices(text@) is None && e is Parse,
        },
{
    let mut voices = match load_from_json(stored) {
        Ok(vs) => vs,
        Err(e) => {
            return Err(e);
        },
    };
    let ghost s0 = voices@;
    upsert(&mut voices, voice);
    proof {
        lemma_upsert_views(s0, voice);
        if stored is None {
            assert(voice_views(s0) =~= Seq::<VoiceView>::empty());
        }
    }
    Ok(voices_to_json(&voices))
}

/// The compute core of deleting a voice: with no stored document the delete
/// is a no-op and nothing is written (`Ok(None)`); otherwise every record
/// with the id is dropped and the document to write back is returned.
pub fn delete_in_json(stored: Option<&str>, id: &String) -> (r: Result<
    Option<String>,
    StoreError,
>)
    ensures
        match r {
            Ok(out) => match stored {
                Some(text) => spec_parse_voices(text@) matches Some(views) && out matches Some(doc)
                    && doc@ == spec_encode_voices(delete_views(views, id@)),
                None => out is None,
            },
            Err(e) => stored matches Some(text) && spec_parse_voices(text@) is None && e is Parse,
        },
{
    let text = match stored {
        Some(text) => text,
        None => {
            return Ok(None);
        },
    };
    let mut voices = match voices_from_json(text) {
        Ok(vs) => vs,
        Err(e) => {
            return Err(e);
        },
    };
    let ghost s0 = voices@;
    delete(&mut voices, id);
    proof {
        lemma_delete_views(s0, id@);
    }
    Ok(Some(voices_to_json(&voices)))
}

} // verus!
