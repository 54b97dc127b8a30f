//! The sensor stream of FAST-LIO: conversion to and from standard messages, and recording.

pub mod clouds;
pub mod conv;
pub mod lio;
pub mod source;
