use vstd::prelude::*;

use rsa::RsaPrivateKey;

use crate::config::{clone_volumes, volumes_view, Service, VolumeDefinition};
use crate::secrets::{key_of, secret_payload, unseal_value, unsealed, SecretError};

verus! {

/// Environment variables of a service as declared: values may be sealed.
#[derive(Clone, Debug)]
pub struct EncryptedEnvironment {
    pub variables: Vec<(String, String)>,
}

/// Environment variables ready for a container.
#[derive(Clone, Debug)]
pub struct Environment {
    pub variables: Vec<(String, String)>,
}

/// Whether any value of `vars` is sealed.
pub open spec fn has_sealed_value(vars: Seq<(String, String)>) -> bool {
    exists|i: int| 0 <= i < vars.len() && (#[trigger] secret_payload(vars[i].1@)) is Some
}

/// The opened values of `vars`, in order; the error of the first value that
/// does not open.
pub open spec fn unseal_all(vars: Seq<(String, String)>, key: Option<RsaPrivateKey>) -> Result<
    Seq<Seq<char>>,
    SecretError,
>
    decreases vars.len(),
{
    if vars.len() == 0 {
        Ok(Seq::empty())
    } else {
        match unseal_all(vars.drop_last(), key) {
            Err(e) => Err(e),
            Ok(vs) => match unsealed(vars.last().1@, key) {
                Ok(v) => Ok(vs.push(v)),
                Err(e) => Err(e),
            },
        }
    }
}

proof fn lemma_unseal_all_err(vars: Seq<(String, String)>, key: Option<RsaPrivateKey>, i: int)
    requires
        0 <= i <= vars.len(),
        unseal_all(vars.subrange(0, i), key) is Err,
    ensures
        unseal_all(vars, key) == unseal_all(vars.subrange(0, i), key),
    decreases vars.len() - i,
{
    if i == vars.len() {
        assert(vars.subrange(0, i) =~= vars);
    } else {
        assert(vars.subrange(0, i + 1).drop_last() =~= vars.subrange(0, i));
        lemma_unseal_all_err(vars, key, i + 1);
    }
}

/// The environment `env` holds the names of `vars` with the values `vs`.
pub open spec fn holds_values(env: Seq<(String, String)>, vars: Seq<(String, String)>, vs: Seq<Seq<char>>) -> bool {
    &&& env.len() == vars.len()
    &&& vs.len() == vars.len()
    &&& forall|i: int| 0 <= i < vars.len() ==> (#[trigger] env[i]).0@ == vars[i].0@ && env[i].1@ == vs[i]
}

impl EncryptedEnvironment {
    /// Opens every value, in order. Names are kept, and so are the values
    /// that are not sealed; the first value that cannot be opened stops it.
    pub fn decrypt(&self, private_key: Option<&RsaPrivateKey>) -> (r: Result<Environment, SecretError>)
        ensures
            unseal_all(self.variables@, key_of(private_key)) is Err ==> r is Err && r->Err_0
                == unseal_all(self.variables@, key_of(private_key))->Err_0,
            unseal_all(self.variables@, key_of(private_key)) is Ok ==> r is Ok && holds_values(
                r->Ok_0.variables@,
                self.variables@,
                unseal_all(self.variables@, key_of(private_key))->Ok_0,
            ),
            r is Ok ==> r->Ok_0.variables@.len() == self.variables@.len(),
            r is Ok ==> forall|i: int|
                0 <= i < self.variables@.len() ==> (#[trigger] r->Ok_0.variables@[i]).0@
                    == self.variables@[i].0@,
            r is Ok ==> forall|i: int|
                0 <= i < self.variables@.len() && secret_payload(self.variables@[i].1@) is None
                    ==> (#[trigger] r->Ok_0.variables@[i]).1@ == self.variables@[i].1@,
            r is Err ==> has_sealed_value(self.variables@),
            private_key is None ==> (r is Ok <==> !has_sealed_value(self.variables@)),
            private_key is None && r is Err ==> r->Err_0 == SecretError::NoKey,
    {
        let mut variables: Vec<(String, String)> = Vec::new();
        let mut i: usize = 0;
        while i < self.variables.len()
            invariant
                i <= self.variables@.len(),
                variables@.len() == i,
                forall|j: int| 0 <= j < i ==> (#[trigger] variables@[j]).0@ == self.variables@[j].0@,
                forall|j: int|
                    0 <= j < i && secret_payload(self.variables@[j].1@) is None
                        ==> (#[trigger] variables@[j]).1@ == self.variables@[j].1@,
                private_key is None ==> forall|j: int|
                    0 <= j < i ==> (#[trigger] secret_payload(self.variables@[j].1@)) is None,
                unseal_all(self.variables@.subrange(0, i as int), key_of(private_key)) is Ok,
                holds_values(
                    variables@,
                    self.variables@.subrange(0, i as int),
                    unseal_all(self.variables@.subrange(0, i as int), key_of(private_key))->Ok_0,
                ),
            decreases self.variables@.len() - i,
        {
            let name = &self.variables[i].0;
            let value = &self.variables[i].1;
            let ghost vars = self.variables@;
            let ghost k = key_of(private_key);
            assert(vars.subrange(0, i + 1).drop_last() =~= vars.subrange(0, i as int));
            assert(vars.subrange(0, i + 1).last() == vars[i as int]);
            match unseal_value(value.as_str(), private_key) {
                Ok(v) => {
                    let ghost prev = variables@;
                    variables.push((name.clone(), v));
                    proof {
                        let vs = unseal_all(vars.subrange(0, i + 1), k)->Ok_0;
                        assert forall|j: int| 0 <= j < i + 1 implies (#[trigger] variables@[j]).0@
                            == vars.subrange(0, i + 1)[j].0@ && variables@[j].1@ == vs[j] by {
                            if j < i {
                                assert(variables@[j] == prev[j]);
                                assert(vars.subrange(0, i + 1)[j] == vars.subrange(0, i as int)[j]);
                            }
                        }
                    }
                },
                Err(e) => {
                    assert(secret_payload(self.variables@[i as int].1@) is Some);
                    proof {
                        lemma_unseal_all_err(vars, k, i + 1);
                    }
                    return Err(e);
                },
            }
            i = i + 1;
        }
        assert(self.variables@.subrange(0, i as int) =~= self.variables@);
        Ok(Environment { variables })
    }
}

/// What a container of a service is made from.
#[derive(Clone, Debug)]
pub struct Container {
    pub image: String,
    pub environment: EncryptedEnvironment,
    pub volumes: Vec<(String, VolumeDefinition)>,
}

impl Container {
    /// The container of a declared service.
    pub fn from_service(service: &Service) -> (r: Container)
        ensures
            r.image@ == service.image@,
            r.environment.variables@.len() == service.environment@.len(),
            forall|i: int|
                0 <= i < service.environment@.len() ==> (#[trigger] r.environment.variables@[i]).0@
                    == service.environment@[i].0@ && r.environment.variables@[i].1@
                    == service.environment@[i].1@,
            volumes_view(r.volumes@) == volumes_view(service.volumes@),
    {
        let mut variables: Vec<(String, String)> = Vec::new();
        let mut i: usize = 0;
        while i < service.environment.len()
            invariant
                i <= service.environment@.len(),
                variables@.len() == i,
                forall|j: int|
                    0 <= j < i ==> (#[trigger] variables@[j]).0@ == service.environment@[j].0@
                        && variables@[j].1@ == service.environment@[j].1@,
            decreases service.environment@.len() - i,
        {
            variables.push((service.environment[i].0.clone(), service.environment[i].1.clone()));
            i = i + 1;
        }
        Container {
            image: service.image.clone(),
            environment: EncryptedEnvironment { variables },
            volumes: clone_volumes(&service.volumes),
        }
    }

    /// The container's environment with its values opened.
    pub fn decrypt_environment(&self, private_key: Option<&RsaPrivateKey>) -> (r: Result<
        Option<Environment>,
        SecretError,
    >)
        ensures
            unseal_all(self.environment.variables@, key_of(private_key)) is Err ==> r is Err
                && r->Err_0 == unseal_all(self.environment.variables@, key_of(private_key))->Err_0,
            unseal_all(self.environment.variables@, key_of(private_key)) is Ok ==> r is Ok
                && r->Ok_0 is Some && holds_values(
                r->Ok_0->Some_0.variables@,
                self.environment.variables@,
                unseal_all(self.environment.variables@, key_of(private_key))->Ok_0,
            ),
            r is Ok ==> r->Ok_0 is Some,
            r is Ok ==> r->Ok_0->Some_0.variables@.len() == self.environment.variables@.len(),
            r is Ok ==> forall|i: int|
                0 <= i < self.environment.variables@.len() ==> (
                #[trigger] r->Ok_0->Some_0.variables@[i]).0@ == self.environment.variables@[i].0@,
            r is Ok ==> forall|i: int|
                0 <= i < self.environment.variables@.len() && secret_payload(
                    self.environment.variables@[i].1@,
                ) is None ==> (#[trigger] r->Ok_0->Some_0.variables@[i]).1@
                    == self.environment.variables@[i].1@,
            r is Err ==> has_sealed_value(self.environment.variables@),
            private_key is None ==> (r is Ok <==> !has_sealed_value(self.environment.variables@)),
    {
        let decrypted = self.environment.decrypt(private_key)?;
        Ok(Some(decrypted))
    }
}

} // verus!
