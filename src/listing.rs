use vstd::prelude::*;

use crate::scrape::ReportForActors;

verus! {

/// The answer of the reporting API to a query for a page of report codes.
#[derive(Debug)]
pub struct Root {
    pub data: ReportDataWrapper,
}

#[derive(Debug)]
pub struct ReportDataWrapper {
    pub report_data: ReportsWrapper,
}

#[derive(Debug)]
pub struct ReportsWrapper {
    pub reports: Option<ReportsData>,
}

/// One page of report codes, and whether more pages follow.
#[derive(Debug)]
pub struct ReportsData {
    pub data: Vec<Report>,
    pub has_more_pages: bool,
}

/// A listed report, known by its code.
#[derive(Debug)]
pub struct Report {
    pub code: String,
}

/// The answer of the reporting API to a query for one report, in the
/// shape the listing queries use.
#[derive(Debug)]
pub struct GraphQLResponse {
    pub data: ReportDataContainer,
}

#[derive(Debug)]
pub struct ReportDataContainer {
    pub report_data: ReportData,
}

#[derive(Debug)]
pub struct ReportData {
    pub report: Option<ReportForActors>,
}

} // verus!
