pub mod cfg;
pub mod bytes;
pub mod ctrl_msg;
pub mod data_frame;
pub mod addr_cfg;
pub mod att;
pub mod cspch;
pub mod wgt;
pub mod dbf_wgt;
pub mod capture;
