//! Parameter lists: the form in which the records of discovery travel. A
//! list is a row of parameters, each an id, the count of the octets of its
//! value and the value, and ends with the sentinel.

use crate::messages::codec::{parameter_octets, PID_SENTINEL};
use crate::serialization::{
    endian_value, get_uint, lemma_octet_ranges, lemma_octets_of, octets_of, put_uint, Endianness,
    Error,
};
use vstd::prelude::*;
use vstd::slice::{slice_subrange, slice_to_vec};

verus! {

/// The most octets that the value of a parameter can have.
pub const MAX_PARAMETER_LENGTH: usize = 0xffff;

/// One parameter: its id and its value.
pub struct Parameter {
    pub id: u16,
    pub value: Vec<u8>,
}

/// What a `Parameter` stands for.
pub struct ParameterView {
    pub id: u16,
    pub value: Seq<u8>,
}

impl View for Parameter {
    type V = ParameterView;

    open spec fn view(&self) -> ParameterView {
        ParameterView { id: self.id, value: self.value@ }
    }
}

/// What a row of parameters stands for.
pub open spec fn parameters_view(ps: Seq<Parameter>) -> Seq<ParameterView> {
    ps.map_values(|p: Parameter| p@)
}

/// The octets of a row of parameters, one after the other.
pub open spec fn parameters_octets(ps: Seq<ParameterView>, e: Endianness) -> Seq<u8>
    decreases ps.len(),
{
    if ps.len() == 0 {
        Seq::empty()
    } else {
        parameter_octets(ps[0].id as nat, ps[0].value, e) + parameters_octets(ps.skip(1), e)
    }
}

/// The octets of a parameter list: its parameters, then the sentinel.
pub open spec fn parameter_list_octets(ps: Seq<ParameterView>, e: Endianness) -> Seq<u8> {
    parameters_octets(ps, e) + parameter_octets(PID_SENTINEL as nat, Seq::empty(), e)
}

/// Whether the value of each parameter is short enough for its count to be
/// written.
pub open spec fn values_fit(ps: Seq<ParameterView>) -> bool {
    forall|i: int| 0 <= i < ps.len() ==> (#[trigger] ps[i]).value.len() <= MAX_PARAMETER_LENGTH
}

/// Whether no parameter has the id of the sentinel.
pub open spec fn no_sentinel(ps: Seq<ParameterView>) -> bool {
    forall|i: int| 0 <= i < ps.len() ==> (#[trigger] ps[i]).id != PID_SENTINEL
}

/// A result of reading parameters, behind those read `before`.
pub open spec fn behind(before: Seq<ParameterView>, r: Result<Seq<ParameterView>, Error>) -> Result<
    Seq<ParameterView>,
    Error,
> {
    match r {
        Ok(rest) => Ok(before + rest),
        Err(x) => Err(x),
    }
}

/// The parameters that octets spell, up to the sentinel; what follows the
/// sentinel is not read.
///
/// Fails with `Eof` where the octets end before the sentinel.
pub open spec fn parameter_list_of(octets: Seq<u8>, e: Endianness) -> Result<
    Seq<ParameterView>,
    Error,
>
    decreases octets.len(),
{
    if octets.len() < 4 {
        Err(Error::Eof)
    } else {
        let id = endian_value(e, octets.subrange(0, 2));
        let n = endian_value(e, octets.subrange(2, 4)) as int;
        if id == PID_SENTINEL {
            Ok(Seq::empty())
        } else if octets.len() < 4 + n {
            Err(Error::Eof)
        } else {
            behind(
                seq![ParameterView { id: id as u16, value: octets.subrange(4, 4 + n) }],
                parameter_list_of(octets.skip(4 + n), e),
            )
        }
    }
}

/// The octets of a row are those of its parameters but the last, then those
/// of the last.
pub proof fn lemma_parameters_octets_push(ps: Seq<ParameterView>, p: ParameterView, e: Endianness)
    ensures
        parameters_octets(ps.push(p), e) == parameters_octets(ps, e) + parameter_octets(
            p.id as nat,
            p.value,
            e,
        ),
    decreases ps.len(),
{
    let all = ps.push(p);
    if ps.len() == 0 {
        assert(all.skip(1) =~= Seq::empty());
        assert(parameters_octets(all.skip(1), e) =~= Seq::empty());
        assert(parameters_octets(all, e) =~= parameter_octets(p.id as nat, p.value, e));
        assert(parameters_octets(ps, e) =~= Seq::empty());
    } else {
        lemma_parameters_octets_push(ps.skip(1), p, e);
        assert(all.skip(1) =~= ps.skip(1).push(p));
        assert(all[0] == ps[0]);
        assert(parameters_octets(all, e) =~= parameters_octets(ps, e) + parameter_octets(
            p.id as nat,
            p.value,
            e,
        ));
    }
}

/// The octets of a parameter list spell its parameters, whatever follows
/// them, where the values are short enough and no parameter has the id of
/// the sentinel.
pub proof fn lemma_parameter_list_round_trip(
    ps: Seq<ParameterView>,
    e: Endianness,
    rest: Seq<u8>,
)
    requires
        values_fit(ps),
        no_sentinel(ps),
    ensures
        parameter_list_of(parameter_list_octets(ps, e) + rest, e) == Ok::<
            Seq<ParameterView>,
            Error,
        >(ps),
    decreases ps.len(),
{
    lemma_octet_ranges();
    let octets = parameter_list_octets(ps, e) + rest;
    lemma_octets_of(e, PID_SENTINEL as nat, 2);
    lemma_octets_of(e, 0, 2);
    if ps.len() == 0 {
        assert(octets.subrange(0, 2) =~= octets_of(e, PID_SENTINEL as nat, 2));
        assert(ps =~= Seq::empty());
    } else {
        let p = ps[0];
        let n = p.value.len() as int;
        lemma_octets_of(e, p.id as nat, 2);
        lemma_octets_of(e, n as nat, 2);
        assert(octets.subrange(0, 2) =~= octets_of(e, p.id as nat, 2));
        assert(octets.subrange(2, 4) =~= octets_of(e, n as nat, 2));
        assert(octets.subrange(4, 4 + n) =~= p.value);
        assert(octets.skip(4 + n) =~= parameter_list_octets(ps.skip(1), e) + rest);
        lemma_parameter_list_round_trip(ps.skip(1), e, rest);
        assert(seq![ParameterView { id: p.id, value: p.value }] + ps.skip(1) =~= ps);
    }
}

/// Puts the octets of a parameter list behind `out`.
///
/// Fails with `SequenceTooLong`, and leaves `out` as it was, where the value
/// of a parameter has more octets than its count can say.
pub fn put_parameter_list(out: &mut Vec<u8>, ps: &Vec<Parameter>, e: Endianness) -> (r: Result<
    (),
    Error,
>)
    ensures
        r is Ok <==> values_fit(parameters_view(ps@)),
        r is Ok ==> final(out)@ == old(out)@ + parameter_list_octets(parameters_view(ps@), e),
        r is Err ==> r == Err::<(), Error>(Error::SequenceTooLong) && final(out)@ == old(out)@,
{
    let ghost view = parameters_view(ps@);
    let n = ps.len();
    let mut i: usize = 0;
    while i < n
        invariant
            i <= n,
            n == ps@.len(),
            view == parameters_view(ps@),
            forall|j: int| 0 <= j < i ==> (#[trigger] view[j]).value.len() <= MAX_PARAMETER_LENGTH,
        decreases n - i,
    {
        if ps[i].value.len() > MAX_PARAMETER_LENGTH {
            assert(view[i as int].value.len() > MAX_PARAMETER_LENGTH);
            return Err(Error::SequenceTooLong);
        }
        i += 1;
    }
    let mut i: usize = 0;
    assert(view.take(0) =~= Seq::empty());
    while i < n
        invariant
            i <= n,
            n == ps@.len(),
            view == parameters_view(ps@),
            values_fit(view),
            out@ == old(out)@ + parameters_octets(view.take(i as int), e),
        decreases n - i,
    {
        let ghost before = out@;
        let p = &ps[i];
        assert(view[i as int] == p@);
        put_uint(out, p.id as u64, 2, e);
        put_uint(out, p.value.len() as u64, 2, e);
        let m = p.value.len();
        let ghost head = out@;
        let mut k: usize = 0;
        while k < m
            invariant
                k <= m,
                m == p.value@.len(),
                out@ == head + p.value@.take(k as int),
            decreases m - k,
        {
            out.push(p.value[k]);
            assert(out@ =~= head + p.value@.take(k as int + 1));
            k += 1;
        }
        proof {
            assert(p.value@.take(m as int) =~= p.value@);
            lemma_parameters_octets_push(view.take(i as int), p@, e);
            assert(view.take(i as int + 1) =~= view.take(i as int).push(p@));
            assert(out@ =~= before + parameter_octets(p@.id as nat, p@.value, e));
        }
        i += 1;
    }
    put_uint(out, PID_SENTINEL as u64, 2, e);
    put_uint(out, 0, 2, e);
    proof {
        assert(view.take(n as int) =~= view);
        assert(out@ =~= old(out)@ + parameter_list_octets(view, e));
    }
    Ok(())
}

/// The parameters that `buf` spells, up to the sentinel.
///
/// Fails with `Eof` where `buf` ends before the sentinel.
pub fn get_parameter_list(buf: &[u8], e: Endianness) -> (r: Result<Vec<Parameter>, Error>)
    ensures
        match r {
            Ok(ps) => parameter_list_of(buf@, e) == Ok::<Seq<ParameterView>, Error>(
                parameters_view(ps@),
            ),
            Err(x) => parameter_list_of(buf@, e) == Err::<Seq<ParameterView>, Error>(x),
        },
{
    let len = buf.len();
    let mut found: Vec<Parameter> = Vec::new();
    let mut pos: usize = 0;
    proof {
        assert(buf@.skip(0) =~= buf@);
        assert(parameters_view(found@) =~= Seq::empty());
        let r = parameter_list_of(buf@, e);
        match r {
            Ok(rest) => assert(Seq::<ParameterView>::empty() + rest =~= rest),
            Err(_) => {},
        }
    }
    loop
        invariant
            pos <= len,
            len == buf@.len(),
            parameter_list_of(buf@, e) == behind(
                parameters_view(found@),
                parameter_list_of(buf@.skip(pos as int), e),
            ),
        decreases len - pos,
    {
        let ghost rest = buf@.skip(pos as int);
        if len - pos < 4 {
            return Err(Error::Eof);
        }
        let id = get_uint(buf, pos, 2, e);
        let n = get_uint(buf, pos + 2, 2, e);
        proof {
            lemma_octet_ranges();
            assert(rest.subrange(0, 2) =~= buf@.subrange(pos as int, pos + 2));
            assert(rest.subrange(2, 4) =~= buf@.subrange(pos + 2, pos + 4));
        }
        if id == PID_SENTINEL as u64 {
            proof {
                assert(parameters_view(found@) + Seq::<ParameterView>::empty() =~= parameters_view(
                    found@,
                ));
            }
            return Ok(found);
        }
        if ((len - pos - 4) as u64) < n {
            return Err(Error::Eof);
        }
        let value = slice_to_vec(slice_subrange(buf, pos + 4, pos + 4 + n as usize));
        let ghost before = parameters_view(found@);
        let p = Parameter { id: id as u16, value };
        proof {
            assert(p@.value =~= rest.subrange(4, 4 + n));
            assert(rest.skip(4 + n) =~= buf@.skip(pos + 4 + n));
            match parameter_list_of(rest.skip(4 + n), e) {
                Ok(after) => {
                    assert(before + (seq![p@] + after) =~= before.push(p@) + after);
                },
                Err(_) => {},
            }
        }
        found.push(p);
        proof {
            assert(parameters_view(found@) =~= before.push(p@));
        }
        pos = pos + 4 + n as usize;
    }
}

} // verus!
