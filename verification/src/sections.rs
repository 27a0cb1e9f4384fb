//! The byte stream of a chunk.
use vstd::prelude::*;

verus! {

/// The bytes of a series of sections, one after the other.
pub open spec fn section_stream(sections: Seq<Vec<u8>>) -> Seq<u8>
    decreases sections.len(),
{
    if sections.len() == 0 {
        Seq::empty()
    } else {
        section_stream(sections.drop_last()) + sections.last()@
    }
}

/// Serialize a chunk, given the network encoding of each of its sections from
/// the lowest to the highest, into the raw section byte stream that a
/// client-side section reader consumes.
pub fn serialize_chunk_sections(sections: &Vec<Vec<u8>>) -> (stream: Vec<u8>)
    ensures
        stream@ == section_stream(sections@),
{
    let mut stream: Vec<u8> = Vec::new();
    let mut i: usize = 0;
    while i < sections.len()
        invariant
            i <= sections@.len(),
            stream@ == section_stream(sections@.take(i as int)),
        decreases sections@.len() - i,
    {
        assert(sections@.take(i + 1).drop_last() =~= sections@.take(i as int));
        stream.extend_from_slice(sections[i].as_slice());
        i = i + 1;
    }
    assert(sections@.take(i as int) =~= sections@);
    stream
}

/// Every section stands in the stream, whole, behind those below it. So the
/// stream is empty only where no section has any bytes.
pub proof fn lemma_stream_holds_every_section(sections: Seq<Vec<u8>>, k: int)
    requires
        0 <= k < sections.len(),
    ensures
        ({
            let start = section_stream(sections.take(k)).len() as int;
            let end = start + sections[k]@.len();
            &&& end <= section_stream(sections).len()
            &&& section_stream(sections).subrange(start, end) == sections[k]@
        }),
    decreases sections.len(),
{
    let lower = sections.drop_last();
    if k < sections.len() - 1 {
        lemma_stream_holds_every_section(lower, k);
        assert(lower.take(k) =~= sections.take(k));
        let start = section_stream(sections.take(k)).len() as int;
        let end = start + sections[k]@.len();
        assert(section_stream(sections).subrange(start, end) =~= section_stream(lower).subrange(
            start,
            end,
        ));
    } else {
        assert(sections.take(k) =~= lower);
        let start = section_stream(lower).len() as int;
        assert(section_stream(sections).subrange(start, start + sections[k]@.len())
            =~= sections[k]@);
    }
}

/// The stream is the sections one after the other and nothing else.
pub proof fn lemma_stream_is_the_concatenation(sections: Seq<Vec<u8>>)
    ensures
        section_stream(sections) == sections.map_values(|section: Vec<u8>| section@).flatten(),
    decreases sections.len(),
{
    let bytes = sections.map_values(|section: Vec<u8>| section@);
    bytes.lemma_flatten_and_flatten_alt_are_equivalent();
    if sections.len() > 0 {
        let lower = sections.drop_last();
        let lower_bytes = lower.map_values(|section: Vec<u8>| section@);
        lemma_stream_is_the_concatenation(lower);
        lower_bytes.lemma_flatten_and_flatten_alt_are_equivalent();
        assert(bytes.drop_last() =~= lower_bytes);
    }
}

/// The stream of one section is the section, that of none is empty, and two
/// stacks of sections on top of each other have the streams of both, the lower
/// one first.
pub proof fn lemma_stream_in_parts(lower: Seq<Vec<u8>>, upper: Seq<Vec<u8>>, section: Vec<u8>)
    ensures
        section_stream(lower + upper) == section_stream(lower) + section_stream(upper),
        section_stream(seq![section]) == section@,
        section_stream(Seq::empty()) == Seq::<u8>::empty(),
    decreases upper.len(),
{
    assert(seq![section].drop_last() =~= Seq::empty());
    assert(section_stream(seq![section]) =~= section@) by {
        reveal_with_fuel(section_stream, 2);
    }
    if upper.len() > 0 {
        lemma_stream_in_parts(lower, upper.drop_last(), section);
        assert((lower + upper).drop_last() =~= lower + upper.drop_last());
        assert(section_stream(lower + upper) =~= section_stream(lower) + section_stream(upper));
    } else {
        assert(lower + upper =~= lower);
        assert(section_stream(lower + upper) =~= section_stream(lower) + section_stream(upper));
    }
}

} // verus!
