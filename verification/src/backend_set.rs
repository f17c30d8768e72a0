//! The storage backends of one session.

use vstd::prelude::*;
use vstd::string::*;

verus! {

/// Which backend a query asks for.
#[derive(Clone, Copy, Debug, PartialEq, Eq, Structural)]
pub enum Backend {
    Default,
    Legacy,
    Columnar,
}

/// The columnar backend was asked for and is not installed.
#[derive(Clone, Copy, Debug, PartialEq, Eq, Structural)]
pub struct ColumnarNotEnabled;

impl ColumnarNotEnabled {
    /// The refusal in words.
    pub fn message(&self) -> (s: String)
        ensures
            s@
                == "columnar backend is not enabled for this session; enable columnar.shadow_write in .forgeql.yaml"@,
    {
        "columnar backend is not enabled for this session; enable columnar.shadow_write in .forgeql.yaml".to_owned()
    }
}

/// The storage backends of one session: one is always there, the columnar one where installed.
pub struct BackendSet<E> {
    pub legacy: E,
    pub columnar: Option<E>,
}

impl<E> BackendSet<E> {
    /// A set without a columnar backend.
    pub fn new(legacy: E) -> (s: BackendSet<E>)
        ensures
            s.legacy == legacy,
            s.columnar is None,
    {
        BackendSet { legacy, columnar: None }
    }

    /// The set with a columnar backend installed.
    pub fn with_columnar(self, columnar: E) -> (s: BackendSet<E>)
        ensures
            s.legacy == self.legacy,
            s.columnar == Some(columnar),
    {
        BackendSet { legacy: self.legacy, columnar: Some(columnar) }
    }

    /// Installs or replaces the columnar backend.
    pub fn set_columnar(&mut self, columnar: E)
        ensures
            final(self).legacy == old(self).legacy,
            final(self).columnar == Some(columnar),
    {
        self.columnar = Some(columnar);
    }

    /// Whether a columnar backend is installed.
    pub fn has_columnar(&self) -> (r: bool)
        ensures
            r == (self.columnar is Some),
    {
        self.columnar.is_some()
    }

    /// The backend that answers where a query asks for none.
    pub fn default_engine(&self) -> (e: &E)
        ensures
            *e == self.legacy,
    {
        &self.legacy
    }

    /// The backend that answers where a query asks for none, to be changed.
    pub fn default_engine_mut(&mut self) -> (e: &mut E)
        ensures
            *e == old(self).legacy,
            final(self).legacy == *final(e),
            final(self).columnar == old(self).columnar,
    {
        &mut self.legacy
    }

    /// The backend that a query asks for; refused where it is the columnar one and that is not
    /// installed.
    pub fn engine_for(&self, backend: &Backend) -> (r: Result<&E, ColumnarNotEnabled>)
        ensures
            (match r {
                Ok(e) => if *backend == Backend::Columnar {
                    self.columnar == Some(*e)
                } else {
                    *e == self.legacy
                },
                Err(_) => *backend == Backend::Columnar && self.columnar is None,
            }),
    {
        match backend {
            Backend::Default => Ok(&self.legacy),
            Backend::Legacy => Ok(&self.legacy),
            Backend::Columnar => match &self.columnar {
                Some(e) => Ok(e),
                None => Err(ColumnarNotEnabled),
            },
        }
    }

    /// The backend that is always there.
    pub fn legacy(&self) -> (e: &E)
        ensures
            *e == self.legacy,
    {
        &self.legacy
    }
}

} // verus!
