pub mod report_model;
