//! The decision rules of the asset-upload flow.
//!
//! The network calls themselves live outside the library; these functions
//! decide what a compliant caller sends and how it reacts, including the
//! documented retry-once flow for a challenge response.

use vstd::prelude::*;

use crate::graph::Graph;
use crate::strutil::str_eq;
use crate::Error;

verus! {

/// Which upload endpoint a place goes to: the legacy data endpoint by asset
/// id, or the cloud endpoint by universe and place id.
#[derive(Clone, Copy, Debug, PartialEq, Eq, Structural)]
pub enum UploadPlaceAsset {
    Legacy(u64),
    CloudAPI { place_id: u64, universe_id: u64 },
}

/// The credential an upload flow authenticates with.
#[derive(Clone, Copy, Debug, PartialEq, Eq, Structural)]
pub enum UploadAuth {
    /// The legacy endpoint authenticates with the session cookie.
    Cookie,
    /// The cloud endpoint authenticates with an API key.
    ApiKey,
}

/// The credential the given upload target needs.
pub fn upload_auth_kind(asset: &UploadPlaceAsset) -> (r: UploadAuth)
    ensures
        r == (match *asset {
            UploadPlaceAsset::Legacy(..) => UploadAuth::Cookie,
            UploadPlaceAsset::CloudAPI { .. } => UploadAuth::ApiKey,
        }),
{
    match asset {
        UploadPlaceAsset::Legacy(..) => UploadAuth::Cookie,
        UploadPlaceAsset::CloudAPI { .. } => UploadAuth::ApiKey,
    }
}

/// Checks that the credential the target needs is present.
///
/// Fails with `AuthRequired` exactly when it is missing.
pub fn check_upload_auth(asset: &UploadPlaceAsset, has_cookie: bool, has_api_key: bool) -> (r:
    Result<(), Error>)
    ensures
        match r {
            Ok(_) => match *asset {
                UploadPlaceAsset::Legacy(..) => has_cookie,
                UploadPlaceAsset::CloudAPI { .. } => has_api_key,
            },
            Err(e) => e == Error::AuthRequired && match *asset {
                UploadPlaceAsset::Legacy(..) => !has_cookie,
                UploadPlaceAsset::CloudAPI { .. } => !has_api_key,
            },
        },
{
    match asset {
        UploadPlaceAsset::Legacy(..) => {
            if has_cookie {
                Ok(())
            } else {
                Err(Error::AuthRequired)
            }
        },
        UploadPlaceAsset::CloudAPI { .. } => {
            if has_api_key {
                Ok(())
            } else {
                Err(Error::AuthRequired)
            }
        },
    }
}

/// What the caller does next with an upload response.
#[derive(Clone, Copy, Debug, PartialEq, Eq, Structural)]
pub enum UploadStep {
    /// The upload succeeded.
    Succeed,
    /// Send the request once more, echoing the challenge token.
    RetryWithToken,
    /// Report `RemoteFailure`.
    Fail,
}

/// What an upload response means: any success status finishes the flow; a
/// forbidden status carrying a challenge token is retried exactly once,
/// echoing the token; everything else is a remote failure.
pub open spec fn spec_upload_response_step(status: u16, has_csrf_token: bool, retried: bool) -> UploadStep {
    if 200 <= status < 300 {
        UploadStep::Succeed
    } else if status == 403 && has_csrf_token && !retried {
        UploadStep::RetryWithToken
    } else {
        UploadStep::Fail
    }
}

/// Decides the next step of the upload flow from a response's status, whether
/// it carried a challenge token, and whether the request was already retried.
pub fn upload_response_step(status: u16, has_csrf_token: bool, retried: bool) -> (r: UploadStep)
    ensures
        r == spec_upload_response_step(status, has_csrf_token, retried),
{
    if 200 <= status && status < 300 {
        UploadStep::Succeed
    } else if status == 403 && has_csrf_token && !retried {
        UploadStep::RetryWithToken
    } else {
        UploadStep::Fail
    }
}

/// Checks that `id` may be written as a place: it must exist and be a
/// world-root instance. Fails with `NotFound` or `InvalidClass` otherwise.
pub fn check_place_source(g: &Graph, id: u64) -> (r: Result<(), Error>)
    ensures
        match r {
            Ok(_) => g.model().contains_key(id) && g.model()[id].class@ == "DataModel"@,
            Err(e) => {
                &&& (e == Error::NotFound <==> !g.model().contains_key(id))
                &&& (e == Error::InvalidClass <==> g.model().contains_key(id) && g.model()[id].class@
                    != "DataModel"@)
                &&& (e == Error::NotFound || e == Error::InvalidClass)
            },
        },
{
    match g.get(id) {
        Some(inst) => {
            if str_eq(inst.class.as_str(), "DataModel") {
                Ok(())
            } else {
                Err(Error::InvalidClass)
            }
        },
        None => Err(Error::NotFound),
    }
}

/// Checks that `id` may be written as a model: it must exist and must not be
/// a world-root instance. Fails with `NotFound` or `InvalidClass` otherwise.
pub fn check_model_source(g: &Graph, id: u64) -> (r: Result<(), Error>)
    ensures
        match r {
            Ok(_) => g.model().contains_key(id) && g.model()[id].class@ != "DataModel"@,
            Err(e) => {
                &&& (e == Error::NotFound <==> !g.model().contains_key(id))
                &&& (e == Error::InvalidClass <==> g.model().contains_key(id) && g.model()[id].class@
                    == "DataModel"@)
                &&& (e == Error::NotFound || e == Error::InvalidClass)
            },
        },
{
    match g.get(id) {
        Some(inst) => {
            if str_eq(inst.class.as_str(), "DataModel") {
                Err(Error::InvalidClass)
            } else {
                Ok(())
            }
        },
        None => Err(Error::NotFound),
    }
}

} // verus!
