//! Reading the values of a file as booleans, integers, paths and other types.
use vstd::prelude::*;
use vstd::string::StringSliceAdditionalSpecFns;
use crate::config::file::{str_view, File};
use crate::config::lookup::LookupError;
use crate::config::values::{
    boolean_of, integer_of, normalize, normalized_from, parse_boolean, parse_integer,
    ParseErrorKind, Path, ValueError,
};

verus! {

/// Why a value could not be had as the type that was asked for.
#[derive(Debug)]
pub enum ValueLookupError<E> {
    /// The value is not in the file.
    ValueMissing(LookupError),
    /// The value is in the file but does not convert.
    FailedConversion(E),
}

/// The integers that `values` stand for, up to the first that stands for none.
pub open spec fn integers_of(values: Seq<Seq<u8>>) -> Result<Seq<i64>, (ParseErrorKind, Seq<u8>)>
    decreases values.len(),
{
    if values.len() == 0 {
        Ok(Seq::empty())
    } else {
        match integers_of(values.drop_last()) {
            Err(err) => Err(err),
            Ok(numbers) => match integer_of(values.last()) {
                Ok(number) => Ok(numbers.push(number)),
                Err(kind) => Err((kind, values.last())),
            },
        }
    }
}

/// Whether the conversion into `T` gives a value for the bytes `raw`.
pub open spec fn can_convert<T: TryFrom<Vec<u8>>>(raw: Seq<u8>) -> bool {
    exists|value: T| #[trigger] converts::<T>(raw, Ok::<T, T::Error>(value))
}

/// Whether the value at `at` is the first of `values` for which the conversion into `T`
/// fails, and fails with `err`.
pub open spec fn fails_at<T: TryFrom<Vec<u8>>>(values: Seq<Seq<u8>>, at: int, err: T::Error) -> bool {
    &&& 0 <= at < values.len()
    &&& converts::<T>(values[at], Err::<T, T::Error>(err))
    &&& forall|j: int| 0 <= j < at ==> can_convert::<T>(#[trigger] values[j])
}

/// Whether the conversion into `T` fails with `err` for one of `values`, and for none
/// before it.
pub open spec fn fails<T: TryFrom<Vec<u8>>>(values: Seq<Seq<u8>>, err: T::Error) -> bool {
    exists|at: int| fails_at::<T>(values, at, err)
}

/// Whether `result` is what the conversion into `T` gives for the bytes `raw`.
pub open spec fn converts<T: TryFrom<Vec<u8>>>(raw: Seq<u8>, result: Result<T, T::Error>) -> bool {
    exists|bytes: Vec<u8>| bytes@ == raw && #[trigger] call_ensures(T::try_from, (bytes,), result)
}

impl File {
    /// The value of `key` read as a boolean, if the file holds the key.
    pub fn boolean(&self, section_name: &str, subsection_name: Option<&str>, key: &str) -> (truth:
        Option<Result<bool, ValueError>>)
        requires
            self.wf(),
        ensures
            match self.raw_value_of(
                section_name.spec_bytes(),
                str_view(subsection_name),
                key.spec_bytes(),
            ) {
                Err(_) => truth is None,
                Ok(value) => match boolean_of(value) {
                    Some(b) => truth == Some(Ok::<bool, ValueError>(b)),
                    None => truth matches Some(Err(err)) && err.kind == ParseErrorKind::Boolean
                        && err.input@ == value,
                },
            },
    {
        let value = match self.raw_value(section_name, subsection_name, key) {
            Ok(value) => value,
            Err(_) => {
                return None;
            },
        };
        match parse_boolean(value.as_slice()) {
            Some(b) => Some(Ok(b)),
            None => Some(Err(ValueError { kind: ParseErrorKind::Boolean, input: value })),
        }
    }

    /// The value of `key` read as an integer, if the file holds the key.
    pub fn integer(&self, section_name: &str, subsection_name: Option<&str>, key: &str) -> (number:
        Option<Result<i64, ValueError>>)
        requires
            self.wf(),
        ensures
            match self.raw_value_of(
                section_name.spec_bytes(),
                str_view(subsection_name),
                key.spec_bytes(),
            ) {
                Err(_) => number is None,
                Ok(value) => match integer_of(value) {
                    Ok(n) => number == Some(Ok::<i64, ValueError>(n)),
                    Err(kind) => number matches Some(Err(err)) && err.kind == kind && err.input@
                        == value,
                },
            },
    {
        let value = match self.raw_value(section_name, subsection_name, key) {
            Ok(value) => value,
            Err(_) => {
                return None;
            },
        };
        match parse_integer(value.as_slice()) {
            Ok(n) => Some(Ok(n)),
            Err(kind) => Some(Err(ValueError { kind, input: value })),
        }
    }

    /// All values of `key` read as integers, if the file holds the key. The first value
    /// that is no integer, or too great a one, is the error.
    pub fn integers(&self, section_name: &str, subsection_name: Option<&str>, key: &str) -> (numbers:
        Option<Result<Vec<i64>, ValueError>>)
        requires
            self.wf(),
        ensures
            match self.raw_multi_value_of(
                section_name.spec_bytes(),
                str_view(subsection_name),
                key.spec_bytes(),
            ) {
                Err(_) => numbers is None,
                Ok(values) => match integers_of(values) {
                    Ok(list) => numbers matches Some(Ok(found)) && found@ == list,
                    Err((kind, input)) => numbers matches Some(Err(err)) && err.kind == kind
                        && err.input@ == input,
                },
            },
    {
        let mut values = match self.raw_multi_value(section_name, subsection_name, key) {
            Ok(values) => values,
            Err(_) => {
                return None;
            },
        };
        let ghost all = values@.map_values(|b: Vec<u8>| b@);
        let mut numbers: Vec<i64> = Vec::new();
        let mut i: usize = 0;
        proof {
            assert(all.take(0) =~= Seq::<Seq<u8>>::empty());
        }
        while i < values.len()
            invariant
                i <= values@.len(),
                all == values@.map_values(|b: Vec<u8>| b@),
                self.raw_multi_value_of(
                    section_name.spec_bytes(),
                    str_view(subsection_name),
                    key.spec_bytes(),
                ) == Ok::<Seq<Seq<u8>>, LookupError>(all),
                integers_of(all.take(i as int)) == Ok::<Seq<i64>, (ParseErrorKind, Seq<u8>)>(
                    numbers@,
                ),
            decreases values@.len() - i,
        {
            proof {
                assert(all.take(i as int + 1).drop_last() =~= all.take(i as int));
                assert(all.take(i as int + 1).last() == values@[i as int]@);
            }
            match parse_integer(values[i].as_slice()) {
                Ok(n) => {
                    numbers.push(n);
                },
                Err(kind) => {
                    proof {
                        assert(integers_of(all.take(i as int + 1)) == Err::<
                            Seq<i64>,
                            (ParseErrorKind, Seq<u8>),
                        >((kind, values@[i as int]@)));
                        lemma_integers_fail(all, i as int + 1);
                    }
                    let input = values.swap_remove(i);
                    return Some(Err(ValueError { kind, input }));
                },
            }
            i += 1;
        }
        proof {
            assert(all.take(values@.len() as int) =~= all);
        }
        Some(Ok(numbers))
    }

    /// The value of `key` as a string, if the file holds the key: the value without the
    /// quotes around its parts.
    pub fn string(&self, section_name: &str, subsection_name: Option<&str>, key: &str) -> (text:
        Option<Vec<u8>>)
        requires
            self.wf(),
        ensures
            match self.raw_value_of(
                section_name.spec_bytes(),
                str_view(subsection_name),
                key.spec_bytes(),
            ) {
                Err(_) => text is None,
                Ok(value) => text matches Some(t) && t@ == normalized_from(value, 0),
            },
    {
        match self.raw_value(section_name, subsection_name, key) {
            Ok(value) => Some(normalize(value.as_slice())),
            Err(_) => None,
        }
    }

    /// All values of `key` as strings, if the file holds the key.
    pub fn strings(&self, section_name: &str, subsection_name: Option<&str>, key: &str) -> (texts:
        Option<Vec<Vec<u8>>>)
        requires
            self.wf(),
        ensures
            match self.raw_multi_value_of(
                section_name.spec_bytes(),
                str_view(subsection_name),
                key.spec_bytes(),
            ) {
                Err(_) => texts is None,
                Ok(values) => texts matches Some(found) && found@.len() == values.len()
                    && forall|i: int|
                    0 <= i < values.len() ==> (#[trigger] found@[i])@ == normalized_from(
                        values[i],
                        0,
                    ),
            },
    {
        let values = match self.raw_multi_value(section_name, subsection_name, key) {
            Ok(values) => values,
            Err(_) => {
                return None;
            },
        };
        let ghost all = values@.map_values(|b: Vec<u8>| b@);
        let mut texts: Vec<Vec<u8>> = Vec::new();
        let mut i: usize = 0;
        while i < values.len()
            invariant
                i <= values@.len(),
                all == values@.map_values(|b: Vec<u8>| b@),
                self.raw_multi_value_of(
                    section_name.spec_bytes(),
                    str_view(subsection_name),
                    key.spec_bytes(),
                ) == Ok::<Seq<Seq<u8>>, LookupError>(all),
                texts@.len() == i,
                forall|j: int| 0 <= j < i ==> (#[trigger] texts@[j])@ == normalized_from(all[j], 0),
            decreases values@.len() - i,
        {
            texts.push(normalize(values[i].as_slice()));
            i += 1;
        }
        Some(texts)
    }

    /// The value of `key` as a path, if the file holds the key. The path is not looked
    /// at in any way.
    pub fn path(&self, section_name: &str, subsection_name: Option<&str>, key: &str) -> (path:
        Option<Path>)
        requires
            self.wf(),
        ensures
            match self.raw_value_of(
                section_name.spec_bytes(),
                str_view(subsection_name),
                key.spec_bytes(),
            ) {
                Err(_) => path is None,
                Ok(value) => path matches Some(p) && p.value@ == value,
            },
    {
        match self.raw_value(section_name, subsection_name, key) {
            Ok(value) => Some(Path { value }),
            Err(_) => None,
        }
    }

    /// The value of `key` converted into `T`. A key that the file does not hold is
    /// reported as missing, with the reason; any other failure is that of the conversion,
    /// which is handed the value that the file holds.
    pub fn value<T: TryFrom<Vec<u8>>>(
        &self,
        section_name: &str,
        subsection_name: Option<&str>,
        key: &str,
    ) -> (value: Result<T, ValueLookupError<T::Error>>)
        requires
            self.wf(),
        ensures
            match self.raw_value_of(
                section_name.spec_bytes(),
                str_view(subsection_name),
                key.spec_bytes(),
            ) {
                Err(err) => value matches Err(ValueLookupError::ValueMissing(why)) && why == err,
                Ok(raw) => match value {
                    Ok(converted) => converts::<T>(raw, Ok(converted)),
                    Err(ValueLookupError::FailedConversion(err)) => converts::<T>(raw, Err(err)),
                    Err(ValueLookupError::ValueMissing(_)) => false,
                },
            },
    {
        let raw = match self.raw_value(section_name, subsection_name, key) {
            Ok(raw) => raw,
            Err(err) => {
                return Err(ValueLookupError::ValueMissing(err));
            },
        };
        let ghost bytes = raw;
        let converted = T::try_from(raw);
        proof {
            assert(call_ensures(T::try_from, (bytes,), converted));
            assert(converts::<T>(bytes@, converted));
        }
        match converted {
            Ok(value) => Ok(value),
            Err(err) => Err(ValueLookupError::FailedConversion(err)),
        }
    }

    /// The value of `key` converted into `T`, if the file holds the key.
    pub fn try_value<T: TryFrom<Vec<u8>>>(
        &self,
        section_name: &str,
        subsection_name: Option<&str>,
        key: &str,
    ) -> (value: Option<Result<T, T::Error>>)
        requires
            self.wf(),
        ensures
            match self.raw_value_of(
                section_name.spec_bytes(),
                str_view(subsection_name),
                key.spec_bytes(),
            ) {
                Err(_) => value is None,
                Ok(raw) => value matches Some(converted) && converts::<T>(raw, converted),
            },
    {
        match self.raw_value(section_name, subsection_name, key) {
            Ok(raw) => {
                let ghost bytes = raw;
                let converted = T::try_from(raw);
                proof {
                    assert(call_ensures(T::try_from, (bytes,), converted));
                    assert(converts::<T>(bytes@, converted));
                }
                Some(converted)
            },
            Err(_) => None,
        }
    }

    /// All values of `key`, each converted into `T`: the value at each place is what the
    /// conversion gives for the value that the file holds at that place. A key that the
    /// file does not hold is reported as missing; the first value that does not convert
    /// is the error.
    pub fn multi_value<T: TryFrom<Vec<u8>>>(
        &self,
        section_name: &str,
        subsection_name: Option<&str>,
        key: &str,
    ) -> (values: Result<Vec<T>, ValueLookupError<T::Error>>)
        requires
            self.wf(),
        ensures
            match self.raw_multi_value_of(
                section_name.spec_bytes(),
                str_view(subsection_name),
                key.spec_bytes(),
            ) {
                Err(err) => values matches Err(ValueLookupError::ValueMissing(why)) && why == err,
                Ok(found) => match values {
                    Ok(list) => list@.len() == found.len() && forall|i: int|
                        0 <= i < found.len() ==> converts::<T>(
                            #[trigger] found[i],
                            Ok::<T, T::Error>(list@[i]),
                        ),
                    Err(ValueLookupError::FailedConversion(err)) => fails::<T>(found, err),
                    Err(ValueLookupError::ValueMissing(_)) => false,
                },
            },
    {
        let raw = match self.raw_multi_value(section_name, subsection_name, key) {
            Ok(raw) => raw,
            Err(err) => {
                return Err(ValueLookupError::ValueMissing(err));
            },
        };
        let ghost found = raw@.map_values(|b: Vec<u8>| b@);
        let total = raw.len();
        let mut values: Vec<T> = Vec::new();
        for bytes in it: raw
            invariant
                it.seq().len() == total,
                found.len() == total,
                values@.len() == it.index(),
                found == it.seq().map_values(|b: Vec<u8>| b@),
                self.raw_multi_value_of(
                    section_name.spec_bytes(),
                    str_view(subsection_name),
                    key.spec_bytes(),
                ) == Ok::<Seq<Seq<u8>>, LookupError>(found),
                forall|i: int|
                    0 <= i < it.index() ==> converts::<T>(
                        #[trigger] found[i],
                        Ok::<T, T::Error>(values@[i]),
                    ),
        {
            let ghost at = it.index() as int;
            let ghost given = bytes;
            let ghost before = values@;
            let converted = T::try_from(bytes);
            proof {
                assert(found[at] == given@);
                assert(call_ensures(T::try_from, (given,), converted));
                assert(converts::<T>(found[at], converted));
            }
            match converted {
                Ok(value) => {
                    values.push(value);
                    proof {
                        assert forall|i: int| 0 <= i < at + 1 implies converts::<T>(
                            #[trigger] found[i],
                            Ok::<T, T::Error>(values@[i]),
                        ) by {
                            if i < at {
                                assert(values@[i] == before[i]);
                            }
                        }
                    }
                },
                Err(err) => {
                    let failed: Result<Vec<T>, ValueLookupError<T::Error>> = Err(
                        ValueLookupError::FailedConversion(err),
                    );
                    proof {
                        assert forall|j: int| 0 <= j < at implies can_convert::<T>(
                            #[trigger] found[j],
                        ) by {
                            assert(converts::<T>(found[j], Ok::<T, T::Error>(values@[j])));
                        }
                        assert(converted == Err::<T, T::Error>(failed->Err_0->FailedConversion_0));
                        assert(fails_at::<T>(found, at, failed->Err_0->FailedConversion_0));
                        assert(fails::<T>(found, failed->Err_0->FailedConversion_0));
                    }
                    return failed;
                },
            }
        }
        Ok(values)
    }
}

/// Values of which one is no integer are no integers.
pub proof fn lemma_integers_fail(values: Seq<Seq<u8>>, end: int)
    requires
        0 < end <= values.len(),
        integers_of(values.take(end)) is Err,
    ensures
        integers_of(values) == integers_of(values.take(end)),
    decreases values.len() - end,
{
    if end < values.len() {
        assert(values.take(end + 1).drop_last() =~= values.take(end));
        lemma_integers_fail(values, end + 1);
    } else {
        assert(values.take(end) =~= values);
    }
}

} // verus!
