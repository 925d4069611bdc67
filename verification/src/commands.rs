//! The error shape of the state operations, and the operations themselves
//! in [`state_ops`].

use vstd::prelude::*;

pub mod activation;
pub mod state_ops;

verus! {

/// Why a state operation was refused.
#[derive(Debug)]
pub enum OpError {
    InvalidUrl(String),
    UrlMissingHost(String),
    UrlNoRegisteredDomain(String),
    WebsiteNotFound(u128),
    InstanceNotFound(u128),
    EmptyName,
    Internal(String),
}

/// The mathematical value of an [`OpError`].
pub enum OpErrorView {
    InvalidUrl(Seq<char>),
    UrlMissingHost(Seq<char>),
    UrlNoRegisteredDomain(Seq<char>),
    WebsiteNotFound(u128),
    InstanceNotFound(u128),
    EmptyName,
    Internal(Seq<char>),
}

impl View for OpError {
    type V = OpErrorView;

    open spec fn view(&self) -> OpErrorView {
        match self {
            OpError::InvalidUrl(s) => OpErrorView::InvalidUrl(s@),
            OpError::UrlMissingHost(s) => OpErrorView::UrlMissingHost(s@),
            OpError::UrlNoRegisteredDomain(s) => OpErrorView::UrlNoRegisteredDomain(s@),
            OpError::WebsiteNotFound(id) => OpErrorView::WebsiteNotFound(*id),
            OpError::InstanceNotFound(id) => OpErrorView::InstanceNotFound(*id),
            OpError::EmptyName => OpErrorView::EmptyName,
            OpError::Internal(s) => OpErrorView::Internal(s@),
        }
    }
}

} // verus!
