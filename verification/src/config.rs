//! The typed round trip: an object described as a table, merged with a
//! source, and rebuilt from the result.

use crate::args::arg_v2toml;
use crate::args::parsed;
use crate::args::texts;
use crate::document::document;
use crate::document::parse_document;
use crate::env::env_merged;
use crate::env::merge_env;
use crate::env::Environment;
use crate::error::ConfigError;
use crate::error::Failure;
use crate::merge::merge_tables;
use crate::merge::merge_toml;
use crate::tree::Table;
use vstd::prelude::*;

verus! {

/// What committing a rebuilt object leaves: the object, with success, or the
/// target as it was, with a type mismatch at the place that the rebuilding
/// named.
pub open spec fn committed<T>(
    before: T,
    after: T,
    r: Result<(), ConfigError>,
    rebuilt: Result<T, String>,
) -> bool {
    match rebuilt {
        Ok(object) => r is Ok && after == object,
        Err(place) => r matches Err(e) && e@ == Failure::TypeMismatch(place@) && after == before,
    }
}

/// Puts a rebuilt object in the place of `target`. Where the rebuilding
/// failed, `target` stays as it was and the failure is a type mismatch at
/// the place that the rebuilding named.
pub fn commit<T>(target: &mut T, rebuilt: Result<T, String>) -> (r: Result<(), ConfigError>)
    ensures
        committed(*old(target), *final(target), r, rebuilt),
{
    match rebuilt {
        Ok(object) => {
            *target = object;
            Ok(())
        },
        Err(place) => Err(ConfigError::TypeMismatch(place)),
    }
}

/// A configuration object that can describe itself as a table and be rebuilt
/// from one.
///
/// Each merge takes the table of the object, lays a source over it and
/// rebuilds the object from the result, so that a field which no source
/// touches keeps its value. The object is replaced only when all of that has
/// succeeded; on every failure it stays as it was.
///
/// What `to_table` and `from_table` return is for each implementation to
/// say. The contracts of the merges are stated over whatever they return:
/// there is a table that `to_table` gives for the object as it was, and an
/// outcome that `from_table` gives for what the source makes of that table,
/// and this outcome has been committed as [`commit`] does. An implementation
/// that states what its two methods return thereby states what each merge
/// leaves.
pub trait AsConfig: Sized {
    /// Describes the object as a table, one key for each field. A table can
    /// only be made by this library's own functions, which keep every key
    /// once.
    fn to_table(&self) -> (table: Table)
        ensures
            table.wf(),
    ;

    /// Rebuilds an object from a table. Where a value does not fit the field
    /// it is meant for, the error says where: as a rule, the dotted path of
    /// that value.
    fn from_table(table: &Table) -> (r: Result<Self, String>)
        requires
            table.wf(),
    ;

    /// Lays the table `right` over the object: the object's table and `right`
    /// are merged as [`merge_toml`] does, `right` winning wherever it has a
    /// value, and the object is rebuilt from the result.
    fn merge_by_toml(&mut self, right: &Table) -> (r: Result<(), ConfigError>)
        requires
            right.wf(),
        ensures
            (exists|base: Table, merged: Table, rebuilt: Result<Self, String>|
                {
                    &&& #[trigger] call_ensures(Self::to_table, (&*old(self),), base)
                    &&& merged.wf()
                    &&& merged@ == merge_tables(base@, right@)
                    &&& #[trigger] call_ensures(Self::from_table, (&merged,), rebuilt)
                    &&& committed(*old(self), *final(self), r, rebuilt)
                }),
            r matches Err(e) ==> e@ is TypeMismatch && *final(self) == *old(self),
    {
        let mut temp = self.to_table();
        merge_toml(&mut temp, right);
        commit(self, Self::from_table(&temp))
    }

    /// Overwrites the fields of the object by the variables of `env` that are
    /// named after them, as [`merge_env`] does with the object's table, and
    /// rebuilds the object from the result.
    fn merge_by_env(&mut self, root: &str, env: &Environment) -> (r: Result<(), ConfigError>)
        requires
            env.wf(),
        ensures
            (exists|base: Table, merged: Table, rebuilt: Result<Self, String>|
                {
                    &&& #[trigger] call_ensures(Self::to_table, (&*old(self),), base)
                    &&& merged.wf()
                    &&& merged@ == env_merged(base@, root@, env@)
                    &&& #[trigger] call_ensures(Self::from_table, (&merged,), rebuilt)
                    &&& committed(*old(self), *final(self), r, rebuilt)
                }),
            r matches Err(e) ==> e@ is TypeMismatch && *final(self) == *old(self),
    {
        let mut temp = self.to_table();
        merge_env(&mut temp, root, env);
        commit(self, Self::from_table(&temp))
    }

    /// Lays the content of a configuration file over the object. `None`
    /// stands for a file that is not there: the object keeps its values, and
    /// that is no error. A content that is no well-formed document is a
    /// parse error; a document is laid over the object as by
    /// [`AsConfig::merge_by_toml`].
    fn merge_by_file(&mut self, content: Option<&str>) -> (r: Result<(), ConfigError>)
        ensures
            match content {
                None => r is Ok && *final(self) == *old(self),
                Some(text) => match document(text@) {
                    None => r matches Err(e) && e@ is ParseError,
                    Some(right) => (exists|base: Table, merged: Table, rebuilt: Result<Self, String>|
                        {
                            &&& #[trigger] call_ensures(Self::to_table, (&*old(self),), base)
                            &&& merged.wf()
                            &&& merged@ == merge_tables(base@, right)
                            &&& #[trigger] call_ensures(Self::from_table, (&merged,), rebuilt)
                            &&& committed(*old(self), *final(self), r, rebuilt)
                        }),
                },
            },
            r is Err ==> *final(self) == *old(self),
    {
        match content {
            None => Ok(()),
            Some(text) => match parse_document(text) {
                Ok(right) => self.merge_by_toml(&right),
                Err(e) => Err(e),
            },
        }
    }

    /// Lays the options of a command line over the object. Tokens that
    /// [`arg_v2toml`] cannot read are reported as it reports them; the table
    /// of those that it can is laid over the object as by
    /// [`AsConfig::merge_by_toml`].
    fn merge_by_arg_v(&mut self, arg_v: &[String]) -> (r: Result<(), ConfigError>)
        ensures
            match parsed(texts(arg_v@)) {
                Err(failure) => r matches Err(e) && e@ == failure,
                Ok(right) => (exists|base: Table, merged: Table, rebuilt: Result<Self, String>|
                    {
                        &&& #[trigger] call_ensures(Self::to_table, (&*old(self),), base)
                        &&& merged.wf()
                        &&& merged@ == merge_tables(base@, right)
                        &&& #[trigger] call_ensures(Self::from_table, (&merged,), rebuilt)
                        &&& committed(*old(self), *final(self), r, rebuilt)
                    }),
            },
            r is Err ==> *final(self) == *old(self),
    {
        match arg_v2toml(arg_v) {
            Ok(right) => self.merge_by_toml(&right),
            Err(e) => Err(e),
        }
    }
}

} // verus!
