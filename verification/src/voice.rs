use vstd::prelude::*;

verus! {

/// A voice profile as persisted in the catalog: four opaque string fields,
/// with `id` acting as the logical primary key within a collection.
#[derive(Debug)]
pub struct Voice {
    pub id: String,
    pub name: String,
    pub voice_id: String,
    pub created_at: String,
}

impl Clone for Voice {
    fn clone(&self) -> (res: Self)
        ensures
            res == *self,
    {
        Voice {
            id: self.id.clone(),
            name: self.name.clone(),
            voice_id: self.voice_id.clone(),
            created_at: self.created_at.clone(),
        }
    }
}

/// Position of the first record in `s` whose `id` reads as `id`; `-1` when
/// no record matches.
pub open spec fn first_idx(s: Seq<Voice>, id: Seq<char>) -> int
    decreases s.len(),
{
    if s.len() == 0 {
        -1
    } else if s[0].id@ == id {
        0
    } else {
        let r = first_idx(s.drop_first(), id);
        if r == -1 {
            -1
        } else {
            r + 1
        }
    }
}

pub open spec fn has_id(s: Seq<Voice>, id: Seq<char>) -> bool {
    exists|j: int| 0 <= j < s.len() && s[j].id@ == id
}

/// What upsert does to a collection: replace the first record carrying the
/// same id at its position, or append the record when no id matches.
pub open spec fn upsert_seq(s: Seq<Voice>, v: Voice) -> Seq<Voice> {
    if first_idx(s, v.id@) >= 0 {
        s.update(first_idx(s, v.id@), v)
    } else {
        s.push(v)
    }
}

/// The records of `s` from position `from` on, with every record whose id
/// reads as `id` dropped and the order of the rest kept.
pub open spec fn delete_from(s: Seq<Voice>, id: Seq<char>, from: int) -> Seq<Voice>
    decreases s.len() - from,
{
    if from < 0 || from >= s.len() {
        Seq::empty()
    } else if s[from].id@ == id {
        delete_from(s, id, from + 1)
    } else {
        seq![s[from]] + delete_from(s, id, from + 1)
    }
}

/// What delete does: drop every record whose id reads as `id`.
pub open spec fn delete_seq(s: Seq<Voice>, id: Seq<char>) -> Seq<Voice> {
    delete_from(s, id, 0)
}

pub proof fn lemma_first_idx(s: Seq<Voice>, id: Seq<char>)
    ensures
        first_idx(s, id) == -1 <==> !has_id(s, id),
        first_idx(s, id) != -1 ==> 0 <= first_idx(s, id) < s.len(),
        first_idx(s, id) != -1 ==> s[first_idx(s, id)].id@ == id,
        first_idx(s, id) != -1 ==> forall|j: int| 0 <= j < first_idx(s, id) ==> s[j].id@ != id,
    decreases s.len(),
{
    if s.len() == 0 {
    } else if s[0].id@ == id {
    } else {
        let t = s.drop_first();
        lemma_first_idx(t, id);
        assert(forall|j: int| 0 <= j < t.len() ==> t[j] == s[j + 1]);
        if first_idx(t, id) == -1 {
            assert(!has_id(s, id)) by {
                if has_id(s, id) {
                    let j = choose|j: int| 0 <= j < s.len() && s[j].id@ == id;
                    assert(j != 0);
                    assert(t[j - 1].id@ == id);
                }
            }
        } else {
            assert(has_id(t, id));
            let j = choose|j: int| 0 <= j < t.len() && t[j].id@ == id;
            assert(s[j + 1].id@ == id);
            assert forall|j: int| 0 <= j < first_idx(s, id) implies s[j].id@ != id by {
                if j > 0 {
                    assert(t[j - 1].id@ != id);
                }
            }
        }
    }
}

/// Insert the voice, or replace the first stored record carrying the same id.
pub fn upsert(voices: &mut Vec<Voice>, voice: Voice)
    ensures
        final(voices)@ == upsert_seq(old(voices)@, voice),
{
    let ghost s = voices@;
    let mut i: usize = 0;
    while i < voices.len()
        invariant
            old(voices)@ == s,
            voices@ == s,
            0 <= i <= s.len(),
            forall|j: int| 0 <= j < i ==> s[j].id@ != voice.id@,
        decreases s.len() - i,
    {
        if voices[i].id == voice.id {
            proof {
                lemma_first_idx(s, voice.id@);
                assert(first_idx(s, voice.id@) == i);
            }
            let ghost v = voice;
            voices[i] = voice;
            proof {
                assert(voices@ =~= s.update(i as int, v));
            }
            return;
        }
        i += 1;
    }
    proof {
        lemma_first_idx(s, voice.id@);
    }
    voices.push(voice);
}

/// Remove every stored record whose id equals `id`, keeping the order of the
/// remaining records.
pub fn delete(voices: &mut Vec<Voice>, id: &String)
    ensures
        final(voices)@ == delete_seq(old(voices)@, id@),
{
    let ghost s = voices@;
    let mut out: Vec<Voice> = Vec::new();
    proof {
        assert(Seq::<Voice>::empty() + delete_from(s, id@, 0) =~= delete_from(s, id@, 0));
    }
    let mut i: usize = 0;
    while i < voices.len()
        invariant
            voices@ == s,
            0 <= i <= s.len(),
            delete_seq(s, id@) == out@ + delete_from(s, id@, i as int),
        decreases s.len() - i,
    {
        if !(voices[i].id == *id) {
            let ghost out0 = out@;
            out.push(voices[i].clone());
            proof {
                assert(out@ + delete_from(s, id@, i + 1 as int) =~= out0 + delete_from(
                    s,
                    id@,
                    i as int,
                ));
            }
        }
        i += 1;
    }
    proof {
        assert(out@ + delete_from(s, id@, s.len() as int) =~= out@);
    }
    *voices = out;
}

/// Upserting a voice whose id matches no stored record appends it at the end.
pub proof fn lemma_upsert_appends_when_new(s: Seq<Voice>, v: Voice)
    requires
        !has_id(s, v.id@),
    ensures
        upsert_seq(s, v) == s.push(v),
{
    lemma_first_idx(s, v.id@);
}

/// Upserting a voice whose id matches the record at position `i` and no
/// earlier one replaces exactly that record, leaving every other position
/// untouched.
pub proof fn lemma_upsert_replaces_in_place(s: Seq<Voice>, v: Voice, i: int)
    requires
        0 <= i < s.len(),
        s[i].id@ == v.id@,
        forall|j: int| 0 <= j < i ==> s[j].id@ != v.id@,
    ensures
        upsert_seq(s, v) == s.update(i, v),
{
    lemma_first_idx(s, v.id@);
    assert(first_idx(s, v.id@) == i);
}

proof fn lemma_delete_from_no_match(s: Seq<Voice>, id: Seq<char>, from: int)
    requires
        0 <= from <= s.len(),
        forall|j: int| from <= j < s.len() ==> s[j].id@ != id,
    ensures
        delete_from(s, id, from) == s.skip(from),
    decreases s.len() - from,
{
    if from == s.len() {
        assert(s.skip(from) =~= Seq::empty());
    } else {
        lemma_delete_from_no_match(s, id, from + 1);
        assert(seq![s[from]] + s.skip(from + 1) =~= s.skip(from));
    }
}

/// Deleting an id that no record carries leaves the collection unchanged.
pub proof fn lemma_delete_missing_id_is_noop(s: Seq<Voice>, id: Seq<char>)
    requires
        forall|j: int| 0 <= j < s.len() ==> s[j].id@ != id,
    ensures
        delete_seq(s, id) == s,
{
    lemma_delete_from_no_match(s, id, 0);
    assert(s.skip(0) =~= s);
}

} // verus!
