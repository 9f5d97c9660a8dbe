pub mod volo_adapter;
